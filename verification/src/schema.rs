//! What a weight file must hold for a part of the model, as a list of checks in
//! the order they are made. The first check that fails names the error.

use crate::error::{ErrorView, TtsError};
use crate::text::{decimal, digits};
use crate::weights::{load_error, rows_error, TensorEntry, WeightFile};
use vstd::prelude::*;

verus! {

/// An extent that a tensor must have along an axis.
#[derive(Debug)]
pub enum Dim {
    /// This one.
    Exactly(usize),
    /// That of another tensor along one of its axes.
    SameAs { name: String, axis: usize },
    /// Any. The word stands for it in messages.
    Free(String),
}

/// [`Dim`] with its texts as character sequences.
pub enum DimView {
    Exactly(int),
    SameAs { name: Seq<char>, axis: int },
    Free(Seq<char>),
}

impl View for Dim {
    type V = DimView;

    open spec fn view(&self) -> DimView {
        match *self {
            Dim::Exactly(n) => DimView::Exactly(n as int),
            Dim::SameAs { name, axis } => DimView::SameAs { name: name@, axis: axis as int },
            Dim::Free(word) => DimView::Free(word@),
        }
    }
}

/// One check on a weight file.
#[derive(Debug)]
pub enum Step {
    /// The tensor is there, its type can be used, and it has this rank.
    Load { name: String, rank: usize },
    /// The tensor is there, is a matrix, and its type can be used.
    Rows { name: String },
    /// If the tensor is there, it can be loaded as a vector.
    Optional { name: String },
    /// The vector has this length.
    Vector { name: String, len: Dim },
    /// The matrix has this shape.
    Matrix { name: String, rows: Dim, cols: Dim },
    /// The last of the tensor's three axes, the kernel, is no shorter than the
    /// stride.
    Kernel { name: String, stride: usize },
    /// The last of the tensor's three axes has a single entry.
    Pointwise { name: String },
}

/// [`Step`] with its texts as character sequences.
pub enum StepView {
    Load { name: Seq<char>, rank: int },
    Rows { name: Seq<char> },
    Optional { name: Seq<char> },
    Vector { name: Seq<char>, len: DimView },
    Matrix { name: Seq<char>, rows: DimView, cols: DimView },
    Kernel { name: Seq<char>, stride: int },
    Pointwise { name: Seq<char> },
}

impl View for Step {
    type V = StepView;

    open spec fn view(&self) -> StepView {
        match *self {
            Step::Load { name, rank } => StepView::Load { name: name@, rank: rank as int },
            Step::Rows { name } => StepView::Rows { name: name@ },
            Step::Optional { name } => StepView::Optional { name: name@ },
            Step::Vector { name, len } => StepView::Vector { name: name@, len: len@ },
            Step::Matrix { name, rows, cols } => StepView::Matrix {
                name: name@,
                rows: rows@,
                cols: cols@,
            },
            Step::Kernel { name, stride } => StepView::Kernel { name: name@, stride: stride as int },
            Step::Pointwise { name } => StepView::Pointwise { name: name@ },
        }
    }
}

/// The tensors of a file.
pub type Tensors = Map<Seq<char>, TensorEntry>;

/// The shape of a tensor; empty where there is none.
pub open spec fn shape_in(tensors: Tensors, name: Seq<char>) -> Seq<usize> {
    if tensors.contains_key(name) {
        tensors[name].shape
    } else {
        Seq::empty()
    }
}

/// The extent of a tensor along an axis; 0 where there is none.
pub open spec fn extent_in(tensors: Tensors, name: Seq<char>, axis: int) -> int {
    let shape = shape_in(tensors, name);
    if 0 <= axis < shape.len() {
        shape[axis] as int
    } else {
        0
    }
}

/// Whether an extent is the one asked for.
pub open spec fn dim_fits(tensors: Tensors, dim: DimView, got: int) -> bool {
    match dim {
        DimView::Exactly(n) => got == n,
        DimView::SameAs { name, axis } => got == extent_in(tensors, name, axis),
        DimView::Free(_) => true,
    }
}

/// How an extent that is asked for reads in a message.
pub open spec fn dim_text(tensors: Tensors, dim: DimView) -> Seq<char> {
    match dim {
        DimView::Exactly(n) => digits(n as nat),
        DimView::SameAs { name, axis } => digits(extent_in(tensors, name, axis) as nat),
        DimView::Free(word) => word,
    }
}

/// The error of a check on a file, if it fails.
pub open spec fn step_error(tensors: Tensors, step: StepView) -> Option<ErrorView> {
    match step {
        StepView::Load { name, rank } => load_error(tensors, name, rank),
        StepView::Rows { name } => rows_error(tensors, name),
        StepView::Optional { name } => if tensors.contains_key(name) {
            load_error(tensors, name, 1)
        } else {
            None
        },
        StepView::Vector { name, len } => {
            let got = shape_in(tensors, name);
            if got.len() == 1 && dim_fits(tensors, len, got[0] as int) {
                None
            } else {
                Some(
                    ErrorView::TensorShape {
                        name,
                        expected: "["@ + dim_text(tensors, len) + "]"@,
                        got,
                    },
                )
            }
        },
        StepView::Matrix { name, rows, cols } => {
            let got = shape_in(tensors, name);
            if got.len() == 2 && dim_fits(tensors, rows, got[0] as int) && dim_fits(
                tensors,
                cols,
                got[1] as int,
            ) {
                None
            } else {
                Some(
                    ErrorView::TensorShape {
                        name,
                        expected: "["@ + dim_text(tensors, rows) + ", "@ + dim_text(tensors, cols)
                            + "]"@,
                        got,
                    },
                )
            }
        },
        StepView::Kernel { name, stride } => {
            let got = shape_in(tensors, name);
            if got.len() == 3 && got[2] >= stride {
                None
            } else {
                Some(
                    ErrorView::TensorShape {
                        name,
                        expected: "kernel >= stride "@ + digits(stride as nat),
                        got,
                    },
                )
            }
        },
        StepView::Pointwise { name } => {
            let got = shape_in(tensors, name);
            if got.len() == 3 && got[2] == 1 {
                None
            } else {
                Some(ErrorView::TensorShape { name, expected: "[out, in, 1]"@, got })
            }
        },
    }
}

/// The error of the first check that fails.
pub open spec fn first_error(tensors: Tensors, steps: Seq<StepView>) -> Option<ErrorView>
    decreases steps.len(),
{
    if steps.len() == 0 {
        None
    } else {
        match first_error(tensors, steps.drop_last()) {
            Some(e) => Some(e),
            None => step_error(tensors, steps.last()),
        }
    }
}

/// Checks as mathematical values.
pub open spec fn steps_of(v: Seq<Step>) -> Seq<StepView> {
    v.map_values(|s: Step| s@)
}

/// The extent of a tensor along an axis; 0 where there is none.
pub fn extent(wf: &WeightFile<'_>, name: &str, axis: usize) -> (r: usize)
    ensures
        r == extent_in(wf@, name@, axis as int),
{
    let shape: Vec<usize> = wf.shape(name);
    if axis < shape.len() {
        shape[axis]
    } else {
        0
    }
}

fn fits(wf: &WeightFile<'_>, dim: &Dim, got: usize) -> (r: bool)
    ensures
        r == dim_fits(wf@, dim@, got as int),
{
    match dim {
        Dim::Exactly(n) => got == *n,
        Dim::SameAs { name, axis } => got == extent(wf, name.as_str(), *axis),
        Dim::Free(_) => true,
    }
}

fn describe(wf: &WeightFile<'_>, dim: &Dim) -> (r: String)
    ensures
        r@ == dim_text(wf@, dim@),
{
    match dim {
        Dim::Exactly(n) => decimal(*n as u64),
        Dim::SameAs { name, axis } => decimal(extent(wf, name.as_str(), *axis) as u64),
        Dim::Free(word) => word.clone(),
    }
}

fn check_step(wf: &WeightFile<'_>, step: &Step) -> (r: Result<(), TtsError>)
    ensures
        match r {
            Ok(_) => step_error(wf@, step@) is None,
            Err(e) => step_error(wf@, step@) == Some(e@),
        },
{
    match step {
        Step::Load { name, rank } => wf.can_load(name.as_str(), *rank),
        Step::Rows { name } => wf.can_gather(name.as_str()),
        Step::Optional { name } => if wf.has(name.as_str()) {
            wf.can_load(name.as_str(), 1)
        } else {
            Ok(())
        },
        Step::Vector { name, len } => {
            let got: Vec<usize> = wf.shape(name.as_str());
            if got.len() == 1 && fits(wf, len, got[0]) {
                return Ok(());
            }
            Err(
                TtsError::TensorShape {
                    name: name.clone(),
                    expected: "[".to_string().concat(describe(wf, len).as_str()).concat("]"),
                    got,
                },
            )
        },
        Step::Matrix { name, rows, cols } => {
            let got: Vec<usize> = wf.shape(name.as_str());
            if got.len() == 2 && fits(wf, rows, got[0]) && fits(wf, cols, got[1]) {
                return Ok(());
            }
            Err(
                TtsError::TensorShape {
                    name: name.clone(),
                    expected: "[".to_string().concat(describe(wf, rows).as_str()).concat(
                        ", ",
                    ).concat(describe(wf, cols).as_str()).concat("]"),
                    got,
                },
            )
        },
        Step::Kernel { name, stride } => {
            let got: Vec<usize> = wf.shape(name.as_str());
            if got.len() == 3 && got[2] >= *stride {
                return Ok(());
            }
            Err(
                TtsError::TensorShape {
                    name: name.clone(),
                    expected: "kernel >= stride ".to_string().concat(
                        decimal(*stride as u64).as_str(),
                    ),
                    got,
                },
            )
        },
        Step::Pointwise { name } => {
            let got: Vec<usize> = wf.shape(name.as_str());
            if got.len() == 3 && got[2] == 1 {
                return Ok(());
            }
            Err(
                TtsError::TensorShape {
                    name: name.clone(),
                    expected: "[out, in, 1]".to_string(),
                    got,
                },
            )
        },
    }
}

/// Holds a file to a list of checks: the error is that of the first check that
/// fails.
pub fn check(wf: &WeightFile<'_>, steps: &Vec<Step>) -> (r: Result<(), TtsError>)
    ensures
        match r {
            Ok(_) => first_error(wf@, steps_of(steps@)) is None,
            Err(e) => first_error(wf@, steps_of(steps@)) == Some(e@),
        },
{
    let mut i: usize = 0;
    let ghost all: Seq<StepView> = steps_of(steps@);
    assert(all.take(0) =~= Seq::empty());
    while i < steps.len()
        invariant
            i <= steps.len(),
            all == steps_of(steps@),
            first_error(wf@, all.take(i as int)) is None,
        decreases steps.len() - i,
    {
        proof {
            let t = all.take(i as int + 1);
            assert(t.drop_last() =~= all.take(i as int));
            assert(t.last() == steps@[i as int]@);
        }
        match check_step(wf, &steps[i]) {
            Ok(_) => {},
            Err(e) => {
                proof {
                    lemma_error_stays(wf@, all, i as int + 1);
                }
                return Err(e);
            },
        }
        i = i + 1;
    }
    assert(all.take(i as int) =~= all);
    Ok(())
}

proof fn lemma_error_stays(tensors: Tensors, steps: Seq<StepView>, n: int)
    requires
        0 <= n <= steps.len(),
        first_error(tensors, steps.take(n)) is Some,
    ensures
        first_error(tensors, steps) == first_error(tensors, steps.take(n)),
    decreases steps.len() - n,
{
    if n == steps.len() {
        assert(steps.take(n) =~= steps);
    } else {
        assert(steps.take(n + 1).drop_last() =~= steps.take(n));
        lemma_error_stays(tensors, steps, n + 1);
    }
}

/// A file passes a list of checks exactly when it passes each of them.
pub proof fn passing_is_passing_each(tensors: Tensors, steps: Seq<StepView>)
    ensures
        first_error(tensors, steps) is None <==> forall|i: int|
            0 <= i < steps.len() ==> step_error(tensors, #[trigger] steps[i]) is None,
    decreases steps.len(),
{
    if steps.len() > 0 {
        let rest = steps.drop_last();
        passing_is_passing_each(tensors, rest);
        if first_error(tensors, steps) is None {
            assert forall|i: int| 0 <= i < steps.len() implies step_error(
                tensors,
                #[trigger] steps[i],
            ) is None by {
                if i < rest.len() {
                    assert(rest[i] == steps[i]);
                }
            }
        }
        if forall|i: int|
            0 <= i < steps.len() ==> step_error(tensors, #[trigger] steps[i]) is None {
            assert forall|i: int| 0 <= i < rest.len() implies step_error(
                tensors,
                #[trigger] rest[i],
            ) is None by {
                assert(rest[i] == steps[i]);
            }
            assert(step_error(tensors, steps[steps.len() - 1]) is None);
        }
    }
}

/// The checks of a linear layer's weight: it can be loaded as a matrix and has
/// the shape `[out, inp]`.
pub open spec fn linear_steps(name: Seq<char>, out: DimView, inp: DimView) -> Seq<StepView> {
    seq![StepView::Load { name, rank: 2 }, StepView::Matrix { name, rows: out, cols: inp }]
}

/// The checks of a vector of a given length.
pub open spec fn vector_steps(name: Seq<char>, len: DimView) -> Seq<StepView> {
    seq![StepView::Load { name, rank: 1 }, StepView::Vector { name, len }]
}

/// The check of a tensor of which only the rank is asked for.
pub open spec fn load_steps(name: Seq<char>, rank: int) -> Seq<StepView> {
    seq![StepView::Load { name, rank }]
}

/// The checks of a convolution over single positions, which is used as a
/// matrix.
pub open spec fn pointwise_steps(name: Seq<char>) -> Seq<StepView> {
    seq![StepView::Load { name, rank: 3 }, StepView::Pointwise { name }]
}

/// Adds a check.
pub fn put(v: &mut Vec<Step>, step: Step)
    ensures
        steps_of(final(v)@) == steps_of(old(v)@).push(step@),
{
    v.push(step);
    assert(steps_of(v@) =~= steps_of(old(v)@).push(step@));
}

/// Adds the check of a tensor of which only the rank is asked for.
pub fn put_load(v: &mut Vec<Step>, name: String, rank: usize)
    ensures
        steps_of(final(v)@) == steps_of(old(v)@) + load_steps(name@, rank as int),
{
    put(v, Step::Load { name, rank });
    assert(steps_of(v@) =~= steps_of(old(v)@) + load_steps(name@, rank as int));
}

/// Adds the checks of a linear layer's weight.
pub fn put_linear(v: &mut Vec<Step>, name: String, out: Dim, inp: Dim)
    ensures
        steps_of(final(v)@) == steps_of(old(v)@) + linear_steps(name@, out@, inp@),
{
    put(v, Step::Load { name: name.clone(), rank: 2 });
    put(v, Step::Matrix { name, rows: out, cols: inp });
    assert(steps_of(v@) =~= steps_of(old(v)@) + linear_steps(name@, out@, inp@));
}

/// Adds the checks of a vector of a given length.
pub fn put_vector(v: &mut Vec<Step>, name: String, len: Dim)
    ensures
        steps_of(final(v)@) == steps_of(old(v)@) + vector_steps(name@, len@),
{
    put(v, Step::Load { name: name.clone(), rank: 1 });
    put(v, Step::Vector { name, len });
    assert(steps_of(v@) =~= steps_of(old(v)@) + vector_steps(name@, len@));
}

/// Adds the checks of a convolution over single positions.
pub fn put_pointwise(v: &mut Vec<Step>, name: String)
    ensures
        steps_of(final(v)@) == steps_of(old(v)@) + pointwise_steps(name@),
{
    put(v, Step::Load { name: name.clone(), rank: 3 });
    put(v, Step::Pointwise { name });
    assert(steps_of(v@) =~= steps_of(old(v)@) + pointwise_steps(name@));
}

/// Adds a list of checks.
pub fn put_all(v: &mut Vec<Step>, more: Vec<Step>)
    ensures
        steps_of(final(v)@) == steps_of(old(v)@) + steps_of(more@),
{
    let mut rest: Vec<Step> = more;
    v.append(&mut rest);
    assert(steps_of(v@) =~= steps_of(old(v)@) + steps_of(more@));
}

/// A name below a prefix.
pub fn under(prefix: &str, rest: &str) -> (r: String)
    ensures
        r@ == prefix@ + rest@,
{
    prefix.to_string().concat(rest)
}

/// The name of the `i`-th of a list of parts.
pub open spec fn part(prefix: Seq<char>, i: int, rest: Seq<char>) -> Seq<char> {
    prefix + digits(i as nat) + rest
}

/// The name of the `i`-th of a list of parts.
pub fn part_name(prefix: &str, i: usize, rest: &str) -> (r: String)
    ensures
        r@ == part(prefix@, i as int, rest@),
{
    prefix.to_string().concat(decimal(i as u64).as_str()).concat(rest)
}

/// An empty list of checks.
pub fn no_steps() -> (r: Vec<Step>)
    ensures
        steps_of(r@) == Seq::<StepView>::empty(),
{
    let v: Vec<Step> = Vec::new();
    assert(steps_of(v@) =~= Seq::empty());
    v
}

/// The error of a list of checks is that of the first one that fails.
pub proof fn the_first_failure_is_told(tensors: Tensors, steps: Seq<StepView>, i: int)
    requires
        0 <= i < steps.len(),
        forall|k: int| 0 <= k < i ==> step_error(tensors, #[trigger] steps[k]) is None,
        step_error(tensors, steps[i]) is Some,
    ensures
        first_error(tensors, steps) == step_error(tensors, steps[i]),
{
    let before = steps.take(i);
    let t = steps.take(i + 1);
    assert forall|k: int| 0 <= k < before.len() implies step_error(
        tensors,
        #[trigger] before[k],
    ) is None by {
        assert(before[k] == steps[k]);
    }
    passing_is_passing_each(tensors, before);
    assert(t.drop_last() =~= before);
    assert(t.last() == steps[i]);
    lemma_error_stays(tensors, steps, i + 1);
}

/// Two lists one behind the other pass exactly where both do.
pub proof fn lists_pass_together(tensors: Tensors, a: Seq<StepView>, b: Seq<StepView>)
    ensures
        first_error(tensors, a + b) is None <==> first_error(tensors, a) is None && first_error(
            tensors,
            b,
        ) is None,
        first_error(tensors, a) is Some ==> first_error(tensors, a + b) == first_error(tensors, a),
        first_error(tensors, a) is None ==> first_error(tensors, a + b) == first_error(tensors, b),
    decreases b.len(),
{
    if b.len() == 0 {
        assert(a + b =~= a);
    } else {
        lists_pass_together(tensors, a, b.drop_last());
        assert((a + b).drop_last() =~= a + b.drop_last());
        assert((a + b).last() == b.last());
    }
}

/// What each check asks for. A vector has one axis, a matrix two, a kernel
/// three; each axis has the extent that is asked for, where one is. What may be
/// absent is only looked at where it is there.
pub proof fn checks_ask_for_shapes(
    tensors: Tensors,
    name: Seq<char>,
    rank: int,
    rows: DimView,
    cols: DimView,
    stride: int,
)
    ensures
        ({
            let there = tensors.contains_key(name);
            let shape = tensors[name].shape;
            &&& step_error(tensors, StepView::Load { name, rank }) == load_error(
                tensors,
                name,
                rank,
            )
            &&& step_error(tensors, StepView::Rows { name }) == rows_error(tensors, name)
            &&& !there ==> step_error(tensors, StepView::Optional { name }) is None
            &&& there ==> step_error(tensors, StepView::Optional { name }) == load_error(
                tensors,
                name,
                1,
            )
            &&& step_error(tensors, StepView::Vector { name, len: rows }) is None <==> there
                && shape.len() == 1 && wanted(tensors, rows, shape[0] as int)
            &&& step_error(tensors, StepView::Matrix { name, rows, cols }) is None <==> there
                && shape.len() == 2 && wanted(tensors, rows, shape[0] as int) && wanted(
                tensors,
                cols,
                shape[1] as int,
            )
            &&& step_error(tensors, StepView::Kernel { name, stride }) is None <==> there
                && shape.len() == 3 && shape[2] >= stride
            &&& step_error(tensors, StepView::Pointwise { name }) is None <==> there && shape.len()
                == 3 && shape[2] == 1
        }),
{
}

/// An extent is the one asked for: the number that is named, that of the other
/// tensor, or any.
pub open spec fn wanted(tensors: Tensors, dim: DimView, got: int) -> bool {
    match dim {
        DimView::Exactly(n) => got == n,
        DimView::SameAs { name, axis } => if tensors.contains_key(name) && 0 <= axis
            < tensors[name].shape.len() {
            got == tensors[name].shape[axis]
        } else {
            got == 0
        },
        DimView::Free(_) => true,
    }
}

/// How an extent that is asked for is told: as a number, or by its word.
pub open spec fn told(tensors: Tensors, dim: DimView) -> Seq<char> {
    match dim {
        DimView::Exactly(n) => digits(n as nat),
        DimView::SameAs { name, axis } => if tensors.contains_key(name) && 0 <= axis
            < tensors[name].shape.len() {
            digits(tensors[name].shape[axis] as nat)
        } else {
            digits(0)
        },
        DimView::Free(word) => word,
    }
}

/// A shape that is not the one asked for is told with the name of the tensor,
/// what was asked for and what is there.
pub proof fn wrong_shapes_are_told(tensors: Tensors, step: StepView)
    ensures
        match (step, step_error(tensors, step)) {
            (StepView::Vector { name, len }, Some(e)) => e == (ErrorView::TensorShape {
                name,
                expected: "["@ + told(tensors, len) + "]"@,
                got: shape_in(tensors, name),
            }),
            (StepView::Matrix { name, rows, cols }, Some(e)) => e == (ErrorView::TensorShape {
                name,
                expected: "["@ + told(tensors, rows) + ", "@ + told(tensors, cols) + "]"@,
                got: shape_in(tensors, name),
            }),
            (StepView::Kernel { name, stride }, Some(e)) => e == (ErrorView::TensorShape {
                name,
                expected: "kernel >= stride "@ + digits(stride as nat),
                got: shape_in(tensors, name),
            }),
            (StepView::Pointwise { name }, Some(e)) => e == (ErrorView::TensorShape {
                name,
                expected: "[out, in, 1]"@,
                got: shape_in(tensors, name),
            }),
            _ => true,
        },
{
}

/// The shape and the extents of a tensor are those the file holds; of one that is
/// not there, none.
pub proof fn shapes_are_those_of_the_file(tensors: Tensors, name: Seq<char>, axis: int)
    ensures
        tensors.contains_key(name) ==> shape_in(tensors, name) == tensors[name].shape,
        !tensors.contains_key(name) ==> shape_in(tensors, name).len() == 0,
        tensors.contains_key(name) && 0 <= axis < tensors[name].shape.len() ==> extent_in(
            tensors,
            name,
            axis,
        ) == tensors[name].shape[axis],
        !tensors.contains_key(name) ==> extent_in(tensors, name, axis) == 0,
{
}

/// A tensor that is there, whose type can be used, and that has this rank.
pub open spec fn loadable(tensors: Tensors, name: Seq<char>, rank: int) -> bool {
    &&& tensors.contains_key(name)
    &&& tensors[name].kind != crate::weights::Kind::Other
    &&& tensors[name].shape.len() == rank
}

/// A tensor of which only the rank is asked for has it; a convolution over single
/// positions has a kernel of one.
pub proof fn short_lists_ask_for_a_rank(tensors: Tensors, name: Seq<char>, rank: int)
    ensures
        first_error(tensors, load_steps(name, rank)) is None <==> loadable(tensors, name, rank),
        first_error(tensors, pointwise_steps(name)) is None <==> loadable(tensors, name, 3)
            && tensors[name].shape[2] == 1,
{
    let (a, b) = (load_steps(name, rank), pointwise_steps(name));
    passing_is_passing_each(tensors, a);
    passing_is_passing_each(tensors, b);
    assert(a[0] == StepView::Load { name, rank });
    assert(b[0] == StepView::Load { name, rank: 3 });
    assert(b[1] == StepView::Pointwise { name });
}

/// The first error among some, if there is one.
pub open spec fn first_told(errors: Seq<Option<ErrorView>>) -> Option<ErrorView>
    decreases errors.len(),
{
    if errors.len() == 0 {
        None
    } else if errors[0] is Some {
        errors[0]
    } else {
        first_told(errors.drop_first())
    }
}

/// Where the first of some errors is one, it is told; where it is not, the first
/// of the others is.
pub proof fn the_first_error_is_told(e: Option<ErrorView>, rest: Seq<Option<ErrorView>>)
    ensures
        e is Some ==> first_told(seq![e] + rest) == e,
        e is None ==> first_told(seq![e] + rest) == first_told(rest),
        first_told(Seq::empty()) is None,
{
    assert((seq![e] + rest).drop_first() =~= rest);
}

} // verus!
