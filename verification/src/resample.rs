//! How audio is cut into blocks for the sample-rate converter.

use crate::error::{ErrorView, TtsError};
use vstd::prelude::*;

verus! {

/// Samples in a block.
pub const CHUNK: usize = 1024;

/// A part of the input that is converted at once; what it lacks to a full block
/// is filled with zeros.
#[derive(Clone, Copy, PartialEq, Eq, Debug, Structural)]
pub struct Block {
    pub from: usize,
    pub to: usize,
}

/// How a conversion goes.
#[derive(Debug)]
pub enum ResamplePlan {
    /// The rates are the same; the samples stay as they are.
    Copy,
    /// Block by block.
    Blocks(Vec<Block>),
}

/// Block `k` of `len` samples.
pub open spec fn block_at(k: int, len: int) -> Block {
    Block {
        from: (k * CHUNK) as usize,
        to: if (k + 1) * CHUNK < len {
            ((k + 1) * CHUNK) as usize
        } else {
            len as usize
        },
    }
}

/// How many blocks `len` samples take.
pub open spec fn block_count(len: int) -> int {
    (len + CHUNK - 1) / CHUNK as int
}

/// Whether one of two rates is zero.
pub open spec fn bad_rate(from_rate: u32, to_rate: u32) -> bool {
    from_rate == 0 || to_rate == 0
}

/// Plans the conversion of `len` samples. A rate of zero is refused.
pub fn resample(len: usize, from_rate: u32, to_rate: u32) -> (r: Result<ResamplePlan, TtsError>)
    ensures
        match r {
            Ok(ResamplePlan::Copy) => !bad_rate(from_rate, to_rate) && from_rate == to_rate,
            Ok(ResamplePlan::Blocks(v)) => {
                &&& !bad_rate(from_rate, to_rate)
                &&& from_rate != to_rate
                &&& v@ == Seq::new(
                    block_count(len as int) as nat,
                    |k: int| block_at(k, len as int),
                )
            },
            Err(e) => bad_rate(from_rate, to_rate) && e@ == (ErrorView::BadSampleRate {
                path: Seq::empty(),
                rate: 0,
            }),
        },
{
    if from_rate == 0 || to_rate == 0 {
        let path: String = String::new();
        return Err(TtsError::BadSampleRate { path, rate: 0 });
    }
    if from_rate == to_rate {
        return Ok(ResamplePlan::Copy);
    }
    let mut out: Vec<Block> = Vec::new();
    let mut pos: usize = 0;
    while pos < len
        invariant
            pos <= len,
            pos == len || pos == out.len() * CHUNK,
            pos == len ==> out.len() == block_count(len as int),
            pos < len ==> out.len() < block_count(len as int),
            out@ =~= Seq::new(out@.len(), |k: int| block_at(k, len as int)),
        decreases len - pos,
    {
        let to: usize = if len - pos > CHUNK {
            pos + CHUNK
        } else {
            len
        };
        out.push(Block { from: pos, to });
        pos = to;
    }
    assert(out@ =~= Seq::new(
        block_count(len as int) as nat,
        |k: int| block_at(k, len as int),
    ));
    Ok(ResamplePlan::Blocks(out))
}

/// The blocks cover every sample once, in order, and none is longer than a
/// block or empty.
pub proof fn blocks_cover_the_input(len: int, k: int)
    requires
        0 <= len <= usize::MAX,
        0 <= k < block_count(len),
    ensures
        block_at(k, len).from == k * CHUNK,
        block_at(k, len).from < block_at(k, len).to <= len,
        block_at(k, len).to - block_at(k, len).from <= CHUNK,
        k + 1 < block_count(len) ==> block_at(k, len).to == block_at(k + 1, len).from,
        k + 1 == block_count(len) ==> block_at(k, len).to == len,
{
}

/// The input is cut every 1024 samples, with as many blocks as it takes and no
/// more; a rate of zero, and no other, is refused.
pub proof fn blocks_are_cut_every_1024(len: int, k: int, from_rate: u32, to_rate: u32)
    requires
        0 <= len <= usize::MAX,
        0 <= k < block_count(len),
    ensures
        (block_count(len) - 1) * 1024 < len <= block_count(len) * 1024,
        block_at(k, len).from == 1024 * k,
        block_at(k, len).to == if 1024 * (k + 1) <= len {
            1024 * (k + 1)
        } else {
            len
        },
        bad_rate(from_rate, to_rate) <==> from_rate * to_rate == 0,
{
    assert(from_rate * to_rate == 0 <==> from_rate == 0 || to_rate == 0) by (nonlinear_arith);
}

} // verus!
