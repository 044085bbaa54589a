//! The speaker encoder: which weights it needs, and which spectrograms it can
//! take.

use crate::error::{ErrorView, TtsError};
use crate::mel::HOP;
use crate::schema::{
    check, extent, extent_in, first_error, lists_pass_together, load_steps, loadable, no_steps,
    part, part_name, put_all, put_load, short_lists_ask_for_a_rank, steps_of, under, Step, StepView,
    Tensors,
};
use crate::text::{decimal, digits};
use crate::weights::WeightFile;
use vstd::prelude::*;

verus! {

/// The checks of a time-delay layer.
pub open spec fn tdnn_steps(p: Seq<char>) -> Seq<StepView> {
    load_steps(p + ".weight"@, 3) + load_steps(p + ".bias"@, 1)
}

/// The checks of the first `n` layers of a block's residual scale.
pub open spec fn res2_steps(p: Seq<char>, n: nat) -> Seq<StepView>
    decreases n,
{
    if n == 0 {
        Seq::empty()
    } else {
        res2_steps(p, (n - 1) as nat) + tdnn_steps(
            part(p + ".res2net_block.blocks."@, n - 1, ".conv"@),
        )
    }
}

/// The checks of a block.
pub open spec fn se_steps(p: Seq<char>) -> Seq<StepView> {
    tdnn_steps(p + ".tdnn1.conv"@) + res2_steps(p, 7) + tdnn_steps(p + ".tdnn2.conv"@) + load_steps(
        p + ".se_block.conv1.weight"@,
        3,
    ) + load_steps(p + ".se_block.conv1.bias"@, 1) + load_steps(p + ".se_block.conv2.weight"@, 3)
        + load_steps(p + ".se_block.conv2.bias"@, 1)
}

/// All checks of the speaker encoder, in order.
pub open spec fn speaker_steps() -> Seq<StepView> {
    tdnn_steps("speaker_encoder.blocks.0.conv"@) + se_steps("speaker_encoder.blocks.1"@) + se_steps(
        "speaker_encoder.blocks.2"@,
    ) + se_steps("speaker_encoder.blocks.3"@) + tdnn_steps("speaker_encoder.mfa.conv"@)
        + tdnn_steps("speaker_encoder.asp.tdnn.conv"@) + load_steps(
        "speaker_encoder.asp.conv.weight"@,
        3,
    ) + load_steps("speaker_encoder.asp.conv.bias"@, 1) + load_steps(
        "speaker_encoder.fc.weight"@,
        3,
    ) + load_steps("speaker_encoder.fc.bias"@, 1)
}

fn put_tdnn(v: &mut Vec<Step>, p: &str)
    ensures
        steps_of(final(v)@) == steps_of(old(v)@) + tdnn_steps(p@),
{
    put_load(v, under(p, ".weight"), 3);
    put_load(v, under(p, ".bias"), 1);
    assert(steps_of(v@) =~= steps_of(old(v)@) + tdnn_steps(p@));
}

fn res2_schema(p: &str, n: usize) -> (r: Vec<Step>)
    ensures
        steps_of(r@) == res2_steps(p@, n as nat),
{
    let mut v: Vec<Step> = no_steps();
    let blocks: String = under(p, ".res2net_block.blocks.");
    let mut i: usize = 0;
    while i < n
        invariant
            i <= n,
            blocks@ == p@ + ".res2net_block.blocks."@,
            steps_of(v@) == res2_steps(p@, i as nat),
        decreases n - i,
    {
        put_tdnn(&mut v, part_name(blocks.as_str(), i, ".conv").as_str());
        i = i + 1;
    }
    v
}

fn se_schema(p: &str) -> (r: Vec<Step>)
    ensures
        steps_of(r@) == se_steps(p@),
{
    let mut v: Vec<Step> = no_steps();
    put_tdnn(&mut v, under(p, ".tdnn1.conv").as_str());
    put_all(&mut v, res2_schema(p, 7));
    put_tdnn(&mut v, under(p, ".tdnn2.conv").as_str());
    put_load(&mut v, under(p, ".se_block.conv1.weight"), 3);
    put_load(&mut v, under(p, ".se_block.conv1.bias"), 1);
    put_load(&mut v, under(p, ".se_block.conv2.weight"), 3);
    put_load(&mut v, under(p, ".se_block.conv2.bias"), 1);
    assert(Seq::<StepView>::empty() + tdnn_steps(p@ + ".tdnn1.conv"@) =~= tdnn_steps(
        p@ + ".tdnn1.conv"@,
    ));
    v
}

/// The padding of a time-delay layer, both sides together.
pub open spec fn padding_of(dilation: int, kernel: int) -> int {
    if kernel <= 1 {
        0
    } else if dilation * (kernel - 1) > usize::MAX {
        usize::MAX as int
    } else {
        dilation * (kernel - 1)
    }
}

/// Frames that a reflecting padding needs: those of its longer side, and the
/// one it mirrors around.
pub open spec fn frames_for(padding: int) -> int {
    padding - padding / 2 + 1
}

fn padding_len(dilation: usize, kernel: usize) -> (r: usize)
    ensures
        r == padding_of(dilation as int, kernel as int),
{
    if kernel <= 1 {
        0
    } else {
        match dilation.checked_mul(kernel - 1) {
            Some(n) => n,
            None => usize::MAX,
        }
    }
}

/// Frames that a time-delay layer's padding needs.
pub fn min_frames(dilation: usize, kernel: usize) -> (r: usize)
    ensures
        r == frames_for(padding_of(dilation as int, kernel as int)),
{
    let total: usize = padding_len(dilation, kernel);
    total - total / 2 + 1
}

/// The greater of two numbers.
pub open spec fn greater(a: int, b: int) -> int {
    if a < b {
        b
    } else {
        a
    }
}

/// The frames that the layer under `p` needs.
pub open spec fn layer_frames(tensors: Tensors, p: Seq<char>, dilation: int) -> int {
    frames_for(padding_of(dilation, extent_in(tensors, p + ".weight"@, 2)))
}

/// The frames that the first `n` layers of a block's residual scale need.
pub open spec fn res2_frames(tensors: Tensors, p: Seq<char>, dilation: int, n: nat) -> int
    decreases n,
{
    if n == 0 {
        1
    } else {
        greater(
            res2_frames(tensors, p, dilation, (n - 1) as nat),
            layer_frames(tensors, part(p + ".res2net_block.blocks."@, n - 1, ".conv"@), dilation),
        )
    }
}

/// The frames that a block needs.
pub open spec fn block_frames(tensors: Tensors, p: Seq<char>, dilation: int) -> int {
    greater(
        greater(
            layer_frames(tensors, p + ".tdnn1.conv"@, 1),
            layer_frames(tensors, p + ".tdnn2.conv"@, 1),
        ),
        res2_frames(tensors, p, dilation, 7),
    )
}

/// The frames that the whole encoder needs: those of its most demanding layer.
pub open spec fn speaker_frames(tensors: Tensors) -> int {
    greater(
        greater(
            greater(
                layer_frames(tensors, "speaker_encoder.blocks.0.conv"@, 1),
                layer_frames(tensors, "speaker_encoder.mfa.conv"@, 1),
            ),
            layer_frames(tensors, "speaker_encoder.asp.tdnn.conv"@, 1),
        ),
        greater(
            greater(
                block_frames(tensors, "speaker_encoder.blocks.1"@, 2),
                block_frames(tensors, "speaker_encoder.blocks.2"@, 3),
            ),
            block_frames(tensors, "speaker_encoder.blocks.3"@, 4),
        ),
    )
}

fn larger(a: usize, b: usize) -> (r: usize)
    ensures
        r == greater(a as int, b as int),
{
    if a < b {
        b
    } else {
        a
    }
}

fn frames_of_layer(wf: &WeightFile<'_>, p: &str, dilation: usize) -> (r: usize)
    ensures
        r == layer_frames(wf@, p@, dilation as int),
{
    min_frames(dilation, extent(wf, under(p, ".weight").as_str(), 2))
}

fn frames_of_block(wf: &WeightFile<'_>, p: &str, dilation: usize) -> (r: usize)
    ensures
        r == block_frames(wf@, p@, dilation as int),
{
    let blocks: String = under(p, ".res2net_block.blocks.");
    let mut most: usize = 1;
    let mut i: usize = 0;
    while i < 7
        invariant
            i <= 7,
            blocks@ == p@ + ".res2net_block.blocks."@,
            most == res2_frames(wf@, p@, dilation as int, i as nat),
        decreases 7 - i,
    {
        let n: usize = frames_of_layer(wf, part_name(blocks.as_str(), i, ".conv").as_str(), dilation);
        most = larger(most, n);
        i = i + 1;
    }
    let first: usize = frames_of_layer(wf, under(p, ".tdnn1.conv").as_str(), 1);
    let second: usize = frames_of_layer(wf, under(p, ".tdnn2.conv").as_str(), 1);
    larger(larger(first, second), most)
}

/// The speaker encoder, with its weights checked.
#[derive(Clone, Copy, PartialEq, Eq, Debug, Structural)]
pub struct SpeakerEncoder {
    /// Bands of the spectrograms it takes.
    pub n_mels: usize,
    /// Frames that it needs at least.
    pub min_frames: usize,
}

/// Why a spectrogram cannot be taken, if it cannot. It is given by the length
/// of each band.
pub open spec fn mel_error(enc: SpeakerEncoder, rows: Seq<usize>) -> Option<ErrorView> {
    if rows.len() != enc.n_mels {
        Some(
            ErrorView::InvalidConfig(
                "speaker encoder expects "@ + digits(enc.n_mels as nat) + " mel bands, got "@
                    + digits(rows.len()),
            ),
        )
    } else if exists|i: int| 0 <= i < rows.len() && #[trigger] rows[i] != rows[0] {
        Some(ErrorView::InvalidPrompt("mel rows have unequal lengths"@))
    } else if rows[0] < enc.min_frames {
        Some(
            ErrorView::ReferenceTooShort {
                samples: (rows[0] * HOP) as usize,
                min_samples: (enc.min_frames * HOP) as usize,
            },
        )
    } else {
        None
    }
}

impl SpeakerEncoder {
    /// Checks that a file holds the speaker encoder.
    pub fn load(wf: &WeightFile<'_>) -> (r: Result<Self, TtsError>)
        ensures
            match r {
                Ok(s) => {
                    &&& first_error(wf@, speaker_steps()) is None
                    &&& s.n_mels == extent_in(wf@, "speaker_encoder.blocks.0.conv.weight"@, 1)
                    &&& s.min_frames == speaker_frames(wf@)
                },
                Err(e) => first_error(wf@, speaker_steps()) == Some(e@),
            },
    {
        let mut steps: Vec<Step> = no_steps();
        put_tdnn(&mut steps, "speaker_encoder.blocks.0.conv");
        put_all(&mut steps, se_schema("speaker_encoder.blocks.1"));
        put_all(&mut steps, se_schema("speaker_encoder.blocks.2"));
        put_all(&mut steps, se_schema("speaker_encoder.blocks.3"));
        put_tdnn(&mut steps, "speaker_encoder.mfa.conv");
        put_tdnn(&mut steps, "speaker_encoder.asp.tdnn.conv");
        put_load(&mut steps, "speaker_encoder.asp.conv.weight".to_string(), 3);
        put_load(&mut steps, "speaker_encoder.asp.conv.bias".to_string(), 1);
        put_load(&mut steps, "speaker_encoder.fc.weight".to_string(), 3);
        put_load(&mut steps, "speaker_encoder.fc.bias".to_string(), 1);
        assert(Seq::<StepView>::empty() + tdnn_steps("speaker_encoder.blocks.0.conv"@)
            =~= tdnn_steps("speaker_encoder.blocks.0.conv"@));
        check(wf, &steps)?;
        let own: usize = larger(
            larger(
                frames_of_layer(wf, "speaker_encoder.blocks.0.conv", 1),
                frames_of_layer(wf, "speaker_encoder.mfa.conv", 1),
            ),
            frames_of_layer(wf, "speaker_encoder.asp.tdnn.conv", 1),
        );
        let blocks: usize = larger(
            larger(
                frames_of_block(wf, "speaker_encoder.blocks.1", 2),
                frames_of_block(wf, "speaker_encoder.blocks.2", 3),
            ),
            frames_of_block(wf, "speaker_encoder.blocks.3", 4),
        );
        Ok(
            SpeakerEncoder {
                n_mels: extent(wf, "speaker_encoder.blocks.0.conv.weight", 1),
                min_frames: larger(own, blocks),
            },
        )
    }

    /// Smallest mel frame count `encode` accepts.
    pub fn min_frames(&self) -> (r: usize)
        ensures
            r == self.min_frames,
    {
        self.min_frames
    }

    /// Takes the lengths of a spectrogram's bands: gives how many frames it
    /// has, or refuses it.
    pub fn encode(&self, rows: &Vec<usize>) -> (r: Result<usize, TtsError>)
        requires
            self.n_mels > 0,
            self.min_frames * HOP <= usize::MAX,
        ensures
            match r {
                Ok(t) => mel_error(*self, rows@) is None && t == rows[0],
                Err(e) => mel_error(*self, rows@) == Some(e@),
            },
    {
        if rows.len() != self.n_mels {
            return Err(
                TtsError::InvalidConfig(
                    "speaker encoder expects ".to_string().concat(
                        decimal(self.n_mels as u64).as_str(),
                    ).concat(" mel bands, got ").concat(decimal(rows.len() as u64).as_str()),
                ),
            );
        }
        let t: usize = rows[0];
        let mut i: usize = 0;
        while i < rows.len()
            invariant
                i <= rows.len() == self.n_mels,
                rows.len() > 0,
                t == rows[0],
                forall|k: int| 0 <= k < i ==> #[trigger] rows[k] == t,
            decreases rows.len() - i,
        {
            if rows[i] != t {
                assert(exists|k: int| 0 <= k < rows@.len() && #[trigger] rows@[k] != rows@[0]);
                return Err(TtsError::InvalidPrompt("mel rows have unequal lengths".to_string()));
            }
            i = i + 1;
        }
        if t < self.min_frames {
            return Err(
                TtsError::ReferenceTooShort {
                    samples: t * HOP,
                    min_samples: self.min_frames * HOP,
                },
            );
        }
        Ok(t)
    }
}

/// The mirrored samples of a reflecting padding.
#[derive(Clone, Copy, PartialEq, Eq, Debug, Structural)]
pub struct ReflectPad {
    /// In front: the samples from 1 up to here, turned around.
    pub left_to: usize,
    /// Behind: the samples from here,
    pub right_from: usize,
    /// up to here, turned around.
    pub right_to: usize,
}

/// The mirrored samples of a padding of `total` around `t` samples; the shorter
/// half goes in front.
pub fn reflect_pad(t: usize, total: usize) -> (r: ReflectPad)
    requires
        t >= frames_for(total as int),
    ensures
        r.left_to == total / 2 + 1,
        r.right_from == t - 1 - (total - total / 2),
        r.right_to == t - 1,
        r.left_to <= t,
{
    let left: usize = total / 2;
    let right: usize = total - left;
    ReflectPad { left_to: left + 1, right_from: t - 1 - right, right_to: t - 1 }
}

/// A padded time-delay layer keeps the number of frames.
pub proof fn reflect_padding_keeps_time(t: int, dilation: int, kernel: int)
    requires
        kernel >= 1,
        dilation >= 1,
        dilation * (kernel - 1) <= usize::MAX,
        t >= frames_for(padding_of(dilation, kernel)),
    ensures
        crate::decoder::conv_len(t + padding_of(dilation, kernel), kernel, dilation) == t,
{
    if kernel == 1 {
        assert(dilation * (kernel - 1) == 0) by (nonlinear_arith)
            requires
                kernel == 1,
        ;
    }
}

/// A reflecting padding needs the frames of its longer half and the one that is
/// mirrored around, and no more: with one frame less it would reach past the
/// signal.
pub proof fn paddings_need_their_longer_half(t: int, padding: int)
    requires
        0 <= padding,
    ensures
        t >= frames_for(padding) <==> t - 1 >= padding - padding / 2,
        frames_for(0) == 1,
{
}

/// A padding is what the dilated kernel reaches beyond a single frame, as far as
/// a machine word can tell it.
pub proof fn paddings_are_what_kernels_reach(dilation: int, kernel: int)
    requires
        0 <= dilation,
        0 <= kernel,
    ensures
        kernel <= 1 ==> padding_of(dilation, kernel) == 0,
        kernel >= 1 && dilation * (kernel - 1) <= usize::MAX ==> padding_of(dilation, kernel)
            == dilation * (kernel - 1),
        dilation * (kernel - 1) > usize::MAX && kernel >= 1 ==> padding_of(dilation, kernel)
            == usize::MAX,
{
    if kernel == 1 {
        assert(dilation * (kernel - 1) == 0) by (nonlinear_arith)
            requires
                kernel == 1,
        ;
    }
}

/// Whether the speaker encoder has a layer under `p` with this dilation.
pub open spec fn has_layer(p: Seq<char>, dilation: int) -> bool {
    ||| dilation == 1 && (p == "speaker_encoder.blocks.0.conv"@ || p == "speaker_encoder.mfa.conv"@
        || p == "speaker_encoder.asp.tdnn.conv"@)
    ||| has_block_layer("speaker_encoder.blocks.1"@, 2, p, dilation)
    ||| has_block_layer("speaker_encoder.blocks.2"@, 3, p, dilation)
    ||| has_block_layer("speaker_encoder.blocks.3"@, 4, p, dilation)
}

/// Whether a block has a layer under `p` with this dilation: two of its own and
/// seven of its residual scale.
pub open spec fn has_block_layer(block: Seq<char>, wide: int, p: Seq<char>, dilation: int) -> bool {
    ||| dilation == 1 && (p == block + ".tdnn1.conv"@ || p == block + ".tdnn2.conv"@)
    ||| dilation == wide && exists|i: int|
        0 <= i < 7 && p == #[trigger] res2_layer(block, i)
}

/// The name of the `i`-th layer of a block's residual scale.
pub open spec fn res2_layer(block: Seq<char>, i: int) -> Seq<char> {
    block + ".res2net_block.blocks."@ + digits(i as nat) + ".conv"@
}

/// The encoder needs the frames of its most demanding layer: no layer needs
/// more, and one needs as many.
pub proof fn the_most_demanding_layer_counts(tensors: Tensors, p: Seq<char>, dilation: int)
    requires
        has_layer(p, dilation),
    ensures
        layer_frames(tensors, p, dilation) <= speaker_frames(tensors),
        layer_frames(tensors, p, dilation) == frames_for(
            padding_of(dilation, extent_in(tensors, p + ".weight"@, 2)),
        ),
        exists|q: Seq<char>, d: int|
            has_layer(q, d) && #[trigger] layer_frames(tensors, q, d) == speaker_frames(tensors),
{
    lemma_block(tensors, "speaker_encoder.blocks.1"@, 2, p, dilation);
    lemma_block(tensors, "speaker_encoder.blocks.2"@, 3, p, dilation);
    lemma_block(tensors, "speaker_encoder.blocks.3"@, 4, p, dilation);
    let most = speaker_frames(tensors);
    let (a, b, c) = (
        "speaker_encoder.blocks.0.conv"@,
        "speaker_encoder.mfa.conv"@,
        "speaker_encoder.asp.tdnn.conv"@,
    );
    let q = if layer_frames(tensors, a, 1) == most {
        (a, 1int)
    } else if layer_frames(tensors, b, 1) == most {
        (b, 1int)
    } else if layer_frames(tensors, c, 1) == most {
        (c, 1int)
    } else if block_frames(tensors, "speaker_encoder.blocks.1"@, 2) == most {
        block_layer(tensors, "speaker_encoder.blocks.1"@, 2)
    } else if block_frames(tensors, "speaker_encoder.blocks.2"@, 3) == most {
        block_layer(tensors, "speaker_encoder.blocks.2"@, 3)
    } else {
        block_layer(tensors, "speaker_encoder.blocks.3"@, 4)
    };
    assert(has_layer(q.0, q.1) && layer_frames(tensors, q.0, q.1) == most);
}

/// The layer of a block that needs the most frames.
spec fn block_layer(tensors: Tensors, block: Seq<char>, wide: int) -> (Seq<char>, int) {
    choose|q: (Seq<char>, int)|
        has_block_layer(block, wide, q.0, q.1) && #[trigger] layer_frames(tensors, q.0, q.1)
            == block_frames(tensors, block, wide)
}

proof fn lemma_block(tensors: Tensors, block: Seq<char>, wide: int, p: Seq<char>, dilation: int)
    requires
        0 <= wide,
    ensures
        has_block_layer(block, wide, p, dilation) ==> layer_frames(tensors, p, dilation)
            <= block_frames(tensors, block, wide),
        ({
            let q = block_layer(tensors, block, wide);
            has_block_layer(block, wide, q.0, q.1) && layer_frames(tensors, q.0, q.1)
                == block_frames(tensors, block, wide)
        }),
{
    lemma_res2(tensors, block, wide, 7);
    let most = block_frames(tensors, block, wide);
    if has_block_layer(block, wide, p, dilation) && dilation == wide && !(dilation == 1 && (p
        == block + ".tdnn1.conv"@ || p == block + ".tdnn2.conv"@)) {
        let i = choose|i: int| 0 <= i < 7 && p == #[trigger] res2_layer(block, i);
        assert(layer_frames(tensors, res2_layer(block, i), wide) <= res2_frames(
            tensors,
            block,
            wide,
            7,
        ));
    }
    let (a, b) = (block + ".tdnn1.conv"@, block + ".tdnn2.conv"@);
    let i = choose|i: int|
        0 <= i < 7 && layer_frames(tensors, #[trigger] res2_layer(block, i), wide) == res2_frames(
            tensors,
            block,
            wide,
            7,
        );
    let q = if layer_frames(tensors, a, 1) == most {
        (a, 1int)
    } else if layer_frames(tensors, b, 1) == most {
        (b, 1int)
    } else {
        (res2_layer(block, i), wide)
    };
    assert(has_block_layer(block, wide, q.0, q.1) && layer_frames(tensors, q.0, q.1) == most);
}

proof fn lemma_res2(tensors: Tensors, block: Seq<char>, wide: int, n: nat)
    requires
        n > 0,
        wide >= 0,
    ensures
        forall|i: int|
            0 <= i < n ==> layer_frames(tensors, #[trigger] res2_layer(block, i), wide)
                <= res2_frames(tensors, block, wide, n),
        exists|i: int|
            0 <= i < n && layer_frames(tensors, #[trigger] res2_layer(block, i), wide)
                == res2_frames(tensors, block, wide, n),
    decreases n,
{
    let m = (n - 1) as nat;
    let name = part(block + ".res2net_block.blocks."@, n - 1, ".conv"@);
    assert(name == res2_layer(block, n - 1));
    lemma_frames_positive(tensors, name, wide);
    if m > 0 {
        lemma_res2(tensors, block, wide, m);
        if res2_frames(tensors, block, wide, m) > layer_frames(tensors, name, wide) {
            let i = choose|i: int|
                0 <= i < m && layer_frames(tensors, #[trigger] res2_layer(block, i), wide)
                    == res2_frames(tensors, block, wide, m);
            assert(layer_frames(tensors, res2_layer(block, i), wide) == res2_frames(
                tensors,
                block,
                wide,
                n,
            ));
        } else {
            assert(layer_frames(tensors, res2_layer(block, n - 1), wide) == res2_frames(
                tensors,
                block,
                wide,
                n,
            ));
        }
    } else {
        assert(res2_frames(tensors, block, wide, 0) == 1);
        assert(layer_frames(tensors, res2_layer(block, 0), wide) == res2_frames(
            tensors,
            block,
            wide,
            1,
        ));
    }
}

proof fn lemma_frames_positive(tensors: Tensors, p: Seq<char>, dilation: int)
    ensures
        dilation >= 0 ==> layer_frames(tensors, p, dilation) >= 1,
{
    let kernel = extent_in(tensors, p + ".weight"@, 2);
    if dilation >= 0 && kernel > 1 {
        assert(dilation * (kernel - 1) >= 0) by (nonlinear_arith)
            requires
                dilation >= 0,
                kernel > 1,
        ;
    }
}

/// A spectrogram is taken exactly where it has the bands that are asked for, all
/// of the same length, and enough frames; too few are told in samples, 256 for
/// each frame.
pub proof fn spectrograms_are_taken_whole(enc: SpeakerEncoder, rows: Seq<usize>, i: int)
    requires
        0 <= i < rows.len(),
        rows[0] * 256 <= usize::MAX,
        enc.min_frames * 256 <= usize::MAX,
    ensures
        mel_error(enc, rows) is None <==> rows.len() == enc.n_mels && (forall|k: int|
            0 <= k < rows.len() ==> #[trigger] rows[k] == rows[0]) && rows[0] >= enc.min_frames,
        mel_error(enc, rows) is None ==> rows[i] == rows[0],
        rows.len() != enc.n_mels ==> mel_error(enc, rows) == Some(
            ErrorView::InvalidConfig(
                "speaker encoder expects "@ + digits(enc.n_mels as nat) + " mel bands, got "@
                    + digits(rows.len()),
            ),
        ),
        rows.len() == enc.n_mels && rows[i] != rows[0] ==> mel_error(enc, rows) == Some(
            ErrorView::InvalidPrompt("mel rows have unequal lengths"@),
        ),
        rows.len() == enc.n_mels && (forall|k: int|
            0 <= k < rows.len() ==> #[trigger] rows[k] == rows[0]) && rows[0] < enc.min_frames
            ==> mel_error(enc, rows) == Some(
            ErrorView::ReferenceTooShort {
                samples: (rows[0] * 256) as usize,
                min_samples: (enc.min_frames * 256) as usize,
            },
        ),
{
}

/// A time-delay layer that can be loaded.
pub open spec fn has_tdnn(tensors: Tensors, p: Seq<char>) -> bool {
    &&& loadable(tensors, p + ".weight"@, 3)
    &&& loadable(tensors, p + ".bias"@, 1)
}

/// A block that can be loaded: two layers, seven of its residual scale, and two
/// that weigh the channels.
pub open spec fn has_se_block(tensors: Tensors, p: Seq<char>) -> bool {
    &&& has_tdnn(tensors, p + ".tdnn1.conv"@)
    &&& forall|i: int| 0 <= i < 7 ==> has_tdnn(tensors, #[trigger] res2_layer(p, i))
    &&& has_tdnn(tensors, p + ".tdnn2.conv"@)
    &&& has_tdnn(tensors, p + ".se_block.conv1"@)
    &&& has_tdnn(tensors, p + ".se_block.conv2"@)
}

proof fn lemma_tdnn(tensors: Tensors, p: Seq<char>)
    ensures
        first_error(tensors, tdnn_steps(p)) is None <==> has_tdnn(tensors, p),
{
    let s = tdnn_steps(p);
    crate::schema::passing_is_passing_each(tensors, s);
    assert(s.len() == 2);
    if first_error(tensors, s) is None {
        assert(crate::schema::step_error(tensors, s[0]) is None);
        assert(crate::schema::step_error(tensors, s[1]) is None);
    }
    if has_tdnn(tensors, p) {
        assert forall|i: int| 0 <= i < s.len() implies crate::schema::step_error(
            tensors,
            #[trigger] s[i],
        ) is None by {
            assert(i == 0 || i == 1);
        }
    }
}

proof fn lemma_res2_layers(tensors: Tensors, p: Seq<char>, n: nat)
    ensures
        first_error(tensors, res2_steps(p, n)) is None <==> forall|i: int|
            0 <= i < n ==> has_tdnn(tensors, #[trigger] res2_layer(p, i)),
    decreases n,
{
    if n > 0 {
        let m = (n - 1) as nat;
        let name = part(p + ".res2net_block.blocks."@, n - 1, ".conv"@);
        lists_pass_together(tensors, res2_steps(p, m), tdnn_steps(name));
        lemma_res2_layers(tensors, p, m);
        assert(name == res2_layer(p, n - 1));
        lemma_tdnn(tensors, name);
    }
}

proof fn lemma_se(tensors: Tensors, p: Seq<char>)
    ensures
        first_error(tensors, se_steps(p)) is None <==> has_se_block(tensors, p),
{
    reveal_strlit(".se_block.conv1");
    reveal_strlit(".se_block.conv2");
    reveal_strlit(".se_block.conv1.weight");
    reveal_strlit(".se_block.conv1.bias");
    reveal_strlit(".se_block.conv2.weight");
    reveal_strlit(".se_block.conv2.bias");
    reveal_strlit(".weight");
    reveal_strlit(".bias");
    assert(p + ".se_block.conv1.weight"@ =~= p + ".se_block.conv1"@ + ".weight"@);
    assert(p + ".se_block.conv1.bias"@ =~= p + ".se_block.conv1"@ + ".bias"@);
    assert(p + ".se_block.conv2.weight"@ =~= p + ".se_block.conv2"@ + ".weight"@);
    assert(p + ".se_block.conv2.bias"@ =~= p + ".se_block.conv2"@ + ".bias"@);
    let a = tdnn_steps(p + ".tdnn1.conv"@);
    let b = res2_steps(p, 7);
    let c = tdnn_steps(p + ".tdnn2.conv"@);
    let d = load_steps(p + ".se_block.conv1.weight"@, 3);
    let e = load_steps(p + ".se_block.conv1.bias"@, 1);
    let f = load_steps(p + ".se_block.conv2.weight"@, 3);
    let g = load_steps(p + ".se_block.conv2.bias"@, 1);
    lists_pass_together(tensors, a + b + c + d + e + f, g);
    lists_pass_together(tensors, a + b + c + d + e, f);
    lists_pass_together(tensors, a + b + c + d, e);
    lists_pass_together(tensors, a + b + c, d);
    lists_pass_together(tensors, a + b, c);
    lists_pass_together(tensors, a, b);
    lemma_tdnn(tensors, p + ".tdnn1.conv"@);
    lemma_res2_layers(tensors, p, 7);
    lemma_tdnn(tensors, p + ".tdnn2.conv"@);
    short_lists_ask_for_a_rank(tensors, p + ".se_block.conv1.weight"@, 3);
    short_lists_ask_for_a_rank(tensors, p + ".se_block.conv1.bias"@, 1);
    short_lists_ask_for_a_rank(tensors, p + ".se_block.conv2.weight"@, 3);
    short_lists_ask_for_a_rank(tensors, p + ".se_block.conv2.bias"@, 1);
}

/// A file passes the speaker encoder's checks exactly where it has every part
/// that the encoder computes with: a layer, three blocks, the layers that bring
/// them together and pool them, and the projection behind.
pub proof fn checked_speakers_have_every_part(tensors: Tensors)
    ensures
        first_error(tensors, speaker_steps()) is None <==> {
            &&& has_tdnn(tensors, "speaker_encoder.blocks.0.conv"@)
            &&& has_se_block(tensors, "speaker_encoder.blocks.1"@)
            &&& has_se_block(tensors, "speaker_encoder.blocks.2"@)
            &&& has_se_block(tensors, "speaker_encoder.blocks.3"@)
            &&& has_tdnn(tensors, "speaker_encoder.mfa.conv"@)
            &&& has_tdnn(tensors, "speaker_encoder.asp.tdnn.conv"@)
            &&& loadable(tensors, "speaker_encoder.asp.conv.weight"@, 3)
            &&& loadable(tensors, "speaker_encoder.asp.conv.bias"@, 1)
            &&& loadable(tensors, "speaker_encoder.fc.weight"@, 3)
            &&& loadable(tensors, "speaker_encoder.fc.bias"@, 1)
        },
{
    let a = tdnn_steps("speaker_encoder.blocks.0.conv"@);
    let b = se_steps("speaker_encoder.blocks.1"@);
    let c = se_steps("speaker_encoder.blocks.2"@);
    let d = se_steps("speaker_encoder.blocks.3"@);
    let e = tdnn_steps("speaker_encoder.mfa.conv"@);
    let f = tdnn_steps("speaker_encoder.asp.tdnn.conv"@);
    let g = load_steps("speaker_encoder.asp.conv.weight"@, 3);
    let h = load_steps("speaker_encoder.asp.conv.bias"@, 1);
    let i = load_steps("speaker_encoder.fc.weight"@, 3);
    let j = load_steps("speaker_encoder.fc.bias"@, 1);
    lists_pass_together(tensors, a + b + c + d + e + f + g + h + i, j);
    lists_pass_together(tensors, a + b + c + d + e + f + g + h, i);
    lists_pass_together(tensors, a + b + c + d + e + f + g, h);
    lists_pass_together(tensors, a + b + c + d + e + f, g);
    lists_pass_together(tensors, a + b + c + d + e, f);
    lists_pass_together(tensors, a + b + c + d, e);
    lists_pass_together(tensors, a + b + c, d);
    lists_pass_together(tensors, a + b, c);
    lists_pass_together(tensors, a, b);
    lemma_tdnn(tensors, "speaker_encoder.blocks.0.conv"@);
    lemma_se(tensors, "speaker_encoder.blocks.1"@);
    lemma_se(tensors, "speaker_encoder.blocks.2"@);
    lemma_se(tensors, "speaker_encoder.blocks.3"@);
    lemma_tdnn(tensors, "speaker_encoder.mfa.conv"@);
    lemma_tdnn(tensors, "speaker_encoder.asp.tdnn.conv"@);
    short_lists_ask_for_a_rank(tensors, "speaker_encoder.asp.conv.weight"@, 3);
    short_lists_ask_for_a_rank(tensors, "speaker_encoder.asp.conv.bias"@, 1);
    short_lists_ask_for_a_rank(tensors, "speaker_encoder.fc.weight"@, 3);
    short_lists_ask_for_a_rank(tensors, "speaker_encoder.fc.bias"@, 1);
}

/// What is told of a file that is no speaker encoder is the first fault in the
/// first layer, then in the three blocks, then in what follows them.
pub proof fn speakers_are_checked_part_by_part(tensors: Tensors)
    ensures
        first_error(tensors, speaker_steps()) == crate::schema::first_told(
            seq![
                first_error(tensors, tdnn_steps("speaker_encoder.blocks.0.conv"@)),
                first_error(tensors, se_steps("speaker_encoder.blocks.1"@)),
                first_error(tensors, se_steps("speaker_encoder.blocks.2"@)),
                first_error(tensors, se_steps("speaker_encoder.blocks.3"@)),
                first_error(tensors, tdnn_steps("speaker_encoder.mfa.conv"@)),
                first_error(tensors, tdnn_steps("speaker_encoder.asp.tdnn.conv"@)),
                first_error(tensors, load_steps("speaker_encoder.asp.conv.weight"@, 3)),
                first_error(tensors, load_steps("speaker_encoder.asp.conv.bias"@, 1)),
                first_error(tensors, load_steps("speaker_encoder.fc.weight"@, 3)),
                first_error(tensors, load_steps("speaker_encoder.fc.bias"@, 1)),
            ],
        ),
{
    let a = tdnn_steps("speaker_encoder.blocks.0.conv"@);
    let b = se_steps("speaker_encoder.blocks.1"@);
    let c = se_steps("speaker_encoder.blocks.2"@);
    let d = se_steps("speaker_encoder.blocks.3"@);
    let e = tdnn_steps("speaker_encoder.mfa.conv"@);
    let f = tdnn_steps("speaker_encoder.asp.tdnn.conv"@);
    let g = load_steps("speaker_encoder.asp.conv.weight"@, 3);
    let h = load_steps("speaker_encoder.asp.conv.bias"@, 1);
    let i = load_steps("speaker_encoder.fc.weight"@, 3);
    let j = load_steps("speaker_encoder.fc.bias"@, 1);
    crate::schema::lists_pass_together(tensors, a + b + c + d + e + f + g + h + i, j);
    crate::schema::lists_pass_together(tensors, a + b + c + d + e + f + g + h, i);
    crate::schema::lists_pass_together(tensors, a + b + c + d + e + f + g, h);
    crate::schema::lists_pass_together(tensors, a + b + c + d + e + f, g);
    crate::schema::lists_pass_together(tensors, a + b + c + d + e, f);
    crate::schema::lists_pass_together(tensors, a + b + c + d, e);
    crate::schema::lists_pass_together(tensors, a + b + c, d);
    crate::schema::lists_pass_together(tensors, a + b, c);
    crate::schema::lists_pass_together(tensors, a, b);
    reveal_with_fuel(crate::schema::first_told, 11);
}

} // verus!
