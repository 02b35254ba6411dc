use vstd::prelude::*;
use crate::dim::SymDim;
use crate::error::ShapeError;
use crate::fact::{
    all_known, all_some, copy_of, copy_value, known, known_dims, unify_dims, unify_item,
    unify_shape, unwrapped, FactView, PartialFact, ResolvedFact, Tensor, TensorView,
};
use crate::reshape::{
    compute_shape, infer_mark, spec_compute_shape, spec_fill_infer, spec_find_infer, spec_volume,
    spec_zero_pass, unit,
};

verus! {

/// The integers as literal dimensions.
pub open spec fn spec_literals(vs: Seq<i64>) -> Seq<SymDim> {
    Seq::new(vs.len(), |i: int| SymDim { constant: vs[i], coeff: 0 })
}

/// Whether every size can be written as a dimension.
pub open spec fn sizes_fit(sizes: Seq<u64>) -> bool {
    forall|i: int| 0 <= i < sizes.len() ==> (#[trigger] sizes[i]) <= i64::MAX
}

/// The sizes as literal dimensions.
pub open spec fn spec_dims_of_sizes(sizes: Seq<u64>) -> Seq<SymDim> {
    Seq::new(sizes.len(), |i: int| SymDim { constant: sizes[i] as i64, coeff: 0 })
}

/// Whether every dimension is a literal that is not negative.
pub open spec fn is_concrete(dims: Seq<SymDim>) -> bool {
    forall|i: int| 0 <= i < dims.len() ==> (#[trigger] dims[i]).coeff == 0 && dims[i].constant >= 0
}

/// The literal dimensions as sizes.
pub open spec fn spec_sizes_of_dims(dims: Seq<SymDim>) -> Seq<u64> {
    Seq::new(dims.len(), |i: int| dims[i].constant as u64)
}

/// The number of elements of a tensor of the given shape.
pub open spec fn spec_count(sizes: Seq<u64>) -> nat
    decreases sizes.len(),
{
    if sizes.len() == 0 {
        1
    } else {
        spec_count(sizes.drop_last()) * (sizes.last() as nat)
    }
}

pub fn literals(vs: &Vec<i64>) -> (r: Vec<SymDim>)
    ensures
        r@ == spec_literals(vs@),
{
    let mut out: Vec<SymDim> = Vec::new();
    let mut i: usize = 0;
    while i < vs.len()
        invariant
            i <= vs@.len(),
            out@.len() == i,
            forall|j: int| 0 <= j < i ==> #[trigger] out@[j] == spec_literals(vs@)[j],
        decreases vs@.len() - i,
    {
        out.push(SymDim::from_integer(vs[i]));
        i += 1;
    }
    assert(out@ =~= spec_literals(vs@));
    out
}

/// Fails with `Overflow` exactly when a size is above `i64::MAX`.
pub fn dims_of_sizes(sizes: &Vec<u64>) -> (r: Result<Vec<SymDim>, ShapeError>)
    ensures
        match r {
            Ok(v) => sizes_fit(sizes@) && v@ == spec_dims_of_sizes(sizes@),
            Err(e) => !sizes_fit(sizes@) && e == ShapeError::Overflow,
        },
{
    let mut out: Vec<SymDim> = Vec::new();
    let mut i: usize = 0;
    while i < sizes.len()
        invariant
            i <= sizes@.len(),
            out@.len() == i,
            forall|j: int| 0 <= j < i ==> (#[trigger] sizes@[j]) <= i64::MAX,
            forall|j: int| 0 <= j < i ==> #[trigger] out@[j] == spec_dims_of_sizes(sizes@)[j],
        decreases sizes@.len() - i,
    {
        let u: u64 = sizes[i];
        if u > 0x7fff_ffff_ffff_ffffu64 {
            assert(sizes@[i as int] > i64::MAX);
            return Err(ShapeError::Overflow);
        }
        out.push(SymDim::from_integer(u as i64));
        i += 1;
    }
    assert(out@ =~= spec_dims_of_sizes(sizes@));
    Ok(out)
}

/// The first place from `from` on whose dimension is no size: it contains the
/// symbol or is negative. The length of the list if there is none.
pub open spec fn spec_first_unsized(dims: Seq<SymDim>, from: int) -> int
    decreases dims.len() - from,
{
    if from < 0 || from >= dims.len() {
        dims.len() as int
    } else if dims[from].coeff != 0 || dims[from].constant < 0 {
        from
    } else {
        spec_first_unsized(dims, from + 1)
    }
}

/// The dimensions as sizes. The first dimension that is no size decides the
/// error: `StillSymbolic` where it contains the symbol, `InvalidReshape` where it
/// is a negative literal.
pub open spec fn spec_to_sizes(dims: Seq<SymDim>) -> Result<Seq<u64>, ShapeError> {
    let at = spec_first_unsized(dims, 0);
    if at >= dims.len() {
        Ok(spec_sizes_of_dims(dims))
    } else if dims[at].coeff != 0 {
        Err(ShapeError::StillSymbolic)
    } else {
        Err(ShapeError::InvalidReshape)
    }
}

/// Every dimension is a size exactly when the search for one that is not finds
/// none.
pub proof fn lemma_first_unsized(dims: Seq<SymDim>, from: int)
    requires
        0 <= from <= dims.len(),
    ensures
        from <= spec_first_unsized(dims, from) <= dims.len(),
        forall|i: int|
            from <= i < spec_first_unsized(dims, from) ==> (#[trigger] dims[i]).coeff == 0
                && dims[i].constant >= 0,
        spec_first_unsized(dims, from) < dims.len() ==> dims[spec_first_unsized(dims, from)].coeff
            != 0 || dims[spec_first_unsized(dims, from)].constant < 0,
    decreases dims.len() - from,
{
    if from < dims.len() && !(dims[from].coeff != 0 || dims[from].constant < 0) {
        lemma_first_unsized(dims, from + 1);
    }
}

/// Fails with `StillSymbolic` where the first dimension that is no size
/// contains the symbol, and with `InvalidReshape` where it is negative.
pub fn sizes_of_dims(dims: &Vec<SymDim>) -> (r: Result<Vec<u64>, ShapeError>)
    ensures
        match r {
            Ok(v) => spec_to_sizes(dims@) == Ok::<Seq<u64>, ShapeError>(v@),
            Err(e) => spec_to_sizes(dims@) == Err::<Seq<u64>, ShapeError>(e),
        },
        r is Ok <==> is_concrete(dims@),
{
    proof {
        lemma_first_unsized(dims@, 0);
    }
    let mut out: Vec<u64> = Vec::new();
    let mut i: usize = 0;
    while i < dims.len()
        invariant
            i <= dims@.len(),
            out@.len() == i,
            spec_first_unsized(dims@, 0) == spec_first_unsized(dims@, i as int),
            forall|j: int| 0 <= j < i ==> (#[trigger] dims@[j]).coeff == 0 && dims@[j].constant >= 0,
            forall|j: int| 0 <= j < i ==> #[trigger] out@[j] == spec_sizes_of_dims(dims@)[j],
        decreases dims@.len() - i,
    {
        let d = dims[i];
        match d.to_integer() {
            Ok(v) => {
                if v < 0 {
                    assert(dims@[i as int].constant < 0);
                    return Err(ShapeError::InvalidReshape);
                }
                out.push(v as u64);
            },
            Err(e) => {
                assert(dims@[i as int].coeff != 0);
                return Err(e);
            },
        }
        i += 1;
    }
    assert(out@ =~= spec_sizes_of_dims(dims@));
    Ok(out)
}

/// A shape with a dimension 0 has no element.
pub proof fn lemma_count_with_zero(sizes: Seq<u64>, at: int)
    requires
        0 <= at < sizes.len(),
        sizes[at] == 0,
    ensures
        spec_count(sizes) == 0,
    decreases sizes.len(),
{
    if at == sizes.len() - 1 {
        assert(spec_count(sizes.drop_last()) * 0 == 0);
    } else {
        lemma_count_with_zero(sizes.drop_last(), at);
        assert(0 * (sizes.last() as nat) == 0);
    }
}

/// Without a dimension 0, a shape has at least as many elements as each of its
/// prefixes.
pub proof fn lemma_count_grows(sizes: Seq<u64>, n: int)
    requires
        0 <= n <= sizes.len(),
        forall|i: int| 0 <= i < sizes.len() ==> (#[trigger] sizes[i]) >= 1,
    ensures
        spec_count(sizes) >= spec_count(sizes.take(n)) >= 1,
    decreases sizes.len() - n,
{
    if n == sizes.len() {
        assert(sizes.take(n) =~= sizes);
        lemma_count_positive(sizes);
    } else {
        assert(sizes.take(n + 1).drop_last() =~= sizes.take(n));
        lemma_count_grows(sizes, n + 1);
        let p = spec_count(sizes.take(n));
        let d = sizes[n] as nat;
        lemma_count_positive(sizes.take(n));
        assert(p * d >= p) by (nonlinear_arith)
            requires
                d >= 1,
                p >= 1,
        ;
    }
}

/// Without a dimension 0 a shape has an element.
pub proof fn lemma_count_positive(sizes: Seq<u64>)
    requires
        forall|i: int| 0 <= i < sizes.len() ==> (#[trigger] sizes[i]) >= 1,
    ensures
        spec_count(sizes) >= 1,
    decreases sizes.len(),
{
    if sizes.len() > 0 {
        lemma_count_positive(sizes.drop_last());
        let p = spec_count(sizes.drop_last());
        let d = sizes.last() as nat;
        assert(p * d >= 1) by (nonlinear_arith)
            requires
                d >= 1,
                p >= 1,
        ;
    }
}

/// Whether a tensor of the given shape has exactly `n` elements.
pub fn has_count(sizes: &Vec<u64>, n: usize) -> (r: bool)
    ensures
        r == (spec_count(sizes@) == n),
{
    let mut z: usize = 0;
    while z < sizes.len()
        invariant
            z <= sizes@.len(),
            forall|j: int| 0 <= j < z ==> (#[trigger] sizes@[j]) >= 1,
        decreases sizes@.len() - z,
    {
        if sizes[z] == 0 {
            proof {
                lemma_count_with_zero(sizes@, z as int);
            }
            return n == 0;
        }
        z += 1;
    }
    let mut acc: u64 = 1;
    let mut i: usize = 0;
    while i < sizes.len()
        invariant
            i <= sizes@.len(),
            forall|j: int| 0 <= j < sizes@.len() ==> (#[trigger] sizes@[j]) >= 1,
            acc == spec_count(sizes@.take(i as int)),
        decreases sizes@.len() - i,
    {
        proof {
            assert(sizes@.take(i + 1).drop_last() =~= sizes@.take(i as int));
        }
        match acc.checked_mul(sizes[i]) {
            Some(next) => {
                acc = next;
            },
            None => {
                proof {
                    lemma_count_grows(sizes@, i + 1);
                }
                return false;
            },
        }
        i += 1;
    }
    proof {
        assert(sizes@.take(i as int) =~= sizes@);
    }
    acc == n as u64
}

/// The reshape operator before lowering: its second input holds the target
/// shape.
#[derive(Clone, Copy, Debug, Default, Hash)]
pub struct Reshape {}

/// The reshape operator after lowering: the output shape is part of it.
#[derive(Clone, Debug, PartialEq, Eq)]
pub struct TypedReshape {
    pub shape: Vec<SymDim>,
}

/// What evaluation gives: the same elements under the computed shape, where
/// that shape is concrete and has as many elements as the input holds.
pub open spec fn spec_eval(input: TensorView, shape: TensorView) -> Result<TensorView, ShapeError> {
    if !sizes_fit(input.shape) {
        Err(ShapeError::Overflow)
    } else {
        match spec_compute_shape(spec_dims_of_sizes(input.shape), spec_literals(shape.data)) {
            Err(e) => Err(e),
            Ok(dims) => match spec_to_sizes(dims) {
                Err(e) => Err(e),
                Ok(sizes) => if spec_count(sizes) == input.data.len() {
                    Ok(TensorView { shape: sizes, data: input.data })
                } else {
                    Err(ShapeError::InvalidReshape)
                },
            },
        }
    }
}

/// What one application of the operator's rules makes of the facts of its first
/// input and of its output: both get the type that either knows, and once
/// every input dimension and the target are known, the output gets the
/// computed shape.
pub open spec fn spec_rules(input: FactView, shape: FactView, output: FactView) -> Result<
    (FactView, FactView),
    ShapeError,
> {
    match unify_item(input.datum_type, output.datum_type) {
        Err(e) => Err(e),
        Ok(datum_type) => {
            let triggered = shape.value is Some && input.shape is Some && all_some(
                input.shape->Some_0,
            );
            if !triggered {
                Ok(
                    (
                        FactView { datum_type, ..input },
                        FactView { datum_type, ..output },
                    ),
                )
            } else {
                let dims = unwrapped(input.shape->Some_0);
                match spec_compute_shape(dims, spec_literals(shape.value->Some_0.data)) {
                    Err(e) => Err(e),
                    Ok(computed) => match unify_shape(output.shape, Some(known(computed))) {
                        Err(e) => Err(e),
                        Ok(merged) => Ok(
                            (
                                FactView { datum_type, ..input },
                                FactView { datum_type, shape: merged, value: output.value },
                            ),
                        ),
                    },
                }
            }
        },
    }
}

impl Reshape {
    pub fn new() -> (r: Reshape) {
        Reshape {  }
    }

    pub fn name(&self) -> (r: String)
        ensures
            r@ == "Reshape"@,
    {
        "Reshape".to_string()
    }

    /// Gives the input's elements the shape that the second input asks for.
    pub fn eval(&self, input: Tensor, shape: &Tensor) -> (r: Result<Tensor, ShapeError>)
        ensures
            match r {
                Ok(t) => spec_eval(input@, shape@) == Ok::<TensorView, ShapeError>(t@),
                Err(e) => spec_eval(input@, shape@) == Err::<TensorView, ShapeError>(e),
            },
    {
        let input_shape = match dims_of_sizes(&input.shape) {
            Ok(v) => v,
            Err(e) => {
                return Err(e);
            },
        };
        let target = literals(&shape.data);
        let dims = match compute_shape(input_shape.as_slice(), target.as_slice()) {
            Ok(v) => v,
            Err(e) => {
                return Err(e);
            },
        };
        let sizes = match sizes_of_dims(&dims) {
            Ok(v) => v,
            Err(e) => {
                return Err(e);
            },
        };
        if !has_count(&sizes, input.data.len()) {
            return Err(ShapeError::InvalidReshape);
        }
        Ok(Tensor { shape: sizes, data: input.data })
    }

    /// Applies the operator's rules once to the facts of its inputs and output,
    /// and gives the new facts of the first input and of the output.
    pub fn rules(&self, input: &PartialFact, shape: &PartialFact, output: &PartialFact) -> (r:
        Result<(PartialFact, PartialFact), ShapeError>)
        ensures
            match r {
                Ok((i, o)) => spec_rules(input@, shape@, output@) == Ok::<
                    (FactView, FactView),
                    ShapeError,
                >((i@, o@)),
                Err(e) => spec_rules(input@, shape@, output@) == Err::<
                    (FactView, FactView),
                    ShapeError,
                >(e),
            },
    {
        let datum_type = match (input.datum_type, output.datum_type) {
            (Some(x), Some(y)) => {
                if x != y {
                    return Err(ShapeError::Contradiction);
                }
                Some(x)
            },
            (Some(x), None) => Some(x),
            (None, y) => y,
        };
        let new_input = PartialFact {
            datum_type,
            shape: match &input.shape {
                Some(v) => Some(copy_of(v)),
                None => None,
            },
            value: copy_value(&input.value),
        };
        let dims = match (&input.shape, &shape.value) {
            (Some(partial), Some(_)) => known_dims(partial),
            _ => None,
        };
        let out_shape = match (dims, &shape.value) {
            (Some(dims), Some(target)) => {
                let target = literals(&target.data);
                let computed = match compute_shape(dims.as_slice(), target.as_slice()) {
                    Ok(v) => v,
                    Err(e) => {
                        return Err(e);
                    },
                };
                let computed = all_known(&computed);
                match &output.shape {
                    Some(had) => match unify_dims(had, &computed) {
                        Ok(v) => Some(v),
                        Err(e) => {
                            return Err(e);
                        },
                    },
                    None => Some(computed),
                }
            },
            _ => {
                match &output.shape {
                    Some(v) => Some(copy_of(v)),
                    None => None,
                }
            },
        };
        Ok((new_input, PartialFact { datum_type, shape: out_shape, value: copy_value(&output.value) }))
    }

    /// The lowered operator. The target shape must be a constant: where the fact
    /// of the second input has no value, lowering fails with `VariableShape`.
    pub fn to_typed(&self, input: &ResolvedFact, shape: &ResolvedFact) -> (r: Result<
        TypedReshape,
        ShapeError,
    >)
        ensures
            match r {
                Ok(op) => shape.value matches Some(t) && spec_compute_shape(
                    input.shape@,
                    spec_literals(t.data@),
                ) == Ok::<Seq<SymDim>, ShapeError>(op.shape@),
                Err(e) => match shape.value {
                    None => e == ShapeError::VariableShape,
                    Some(t) => spec_compute_shape(input.shape@, spec_literals(t.data@)) == Err::<
                        Seq<SymDim>,
                        ShapeError,
                    >(e),
                },
            },
    {
        match &shape.value {
            Some(t) => {
                let target = literals(&t.data);
                match compute_shape(input.shape.as_slice(), target.as_slice()) {
                    Ok(v) => Ok(TypedReshape { shape: v }),
                    Err(e) => Err(e),
                }
            },
            None => Err(ShapeError::VariableShape),
        }
    }
}

impl TypedReshape {
    /// The fact of the output: the type of the input and the shape of the
    /// operator; no value is computed.
    pub fn output_fact(&self, input: &ResolvedFact) -> (r: ResolvedFact)
        ensures
            r.datum_type == input.datum_type,
            r.shape@ == self.shape@,
            r.value is None,
    {
        ResolvedFact { datum_type: input.datum_type, shape: copy_of(&self.shape), value: None }
    }
}

/// Evaluation with the target `[-1]` flattens a tensor of shape `[m, n]` to one
/// of shape `[m * n]` with the same elements, where that product fits in 64
/// bits and the tensor holds as many elements: a dimension made of integers
/// alone is the integer that ordinary arithmetic gives.
pub proof fn lemma_eval_flattens(m: u64, n: u64, data: Seq<i64>)
    requires
        m >= 1,
        n >= 1,
        m * n <= i64::MAX,
        data.len() == m * n,
    ensures
        spec_eval(
            TensorView { shape: seq![m, n], data },
            TensorView { shape: seq![1u64], data: seq![-1i64] },
        ) == Ok::<TensorView, ShapeError>(TensorView { shape: seq![(m * n) as u64], data }),
{
    let sizes = seq![m, n];
    assert(m <= m * n && n <= m * n) by (nonlinear_arith)
        requires
            m >= 1,
            n >= 1,
    ;
    assert(sizes[0] == m && sizes[1] == n);
    let a = SymDim { constant: m as i64, coeff: 0 };
    let b = SymDim { constant: n as i64, coeff: 0 };
    let whole = SymDim { constant: (m * n) as i64, coeff: 0 };
    let input = spec_dims_of_sizes(sizes);
    assert(input =~= seq![a, b]);
    let target = spec_literals(seq![-1i64]);
    assert(target =~= seq![infer_mark()]);
    let none = Seq::<SymDim>::empty();
    // both scans stop at once
    assert(target[0] == infer_mark());
    assert(spec_zero_pass(input, target, 0, 0, unit()) == Ok::<Seq<SymDim>, ShapeError>(target));
    assert(target.reverse() =~= target);
    assert(spec_zero_pass(input.reverse(), target, 0, 0, unit()) == Ok::<Seq<SymDim>, ShapeError>(
        target,
    ));
    // the slot gets the product of the two dimensions
    assert(spec_find_infer(target, 1) == 1);
    assert(spec_find_infer(target, 0) == 0);
    assert(input.drop_last() =~= seq![a]);
    assert(seq![a].drop_last() =~= none);
    assert(input[1] == b);
    assert(1 * (m as int) == m && 1 * 0 + 0 * (m as int) == 0);
    assert(spec_volume(none, false) == Ok::<SymDim, ShapeError>(unit()));
    assert(unit().spec_mul(a) == Ok::<SymDim, ShapeError>(a));
    assert(spec_volume(seq![a], false) == Ok::<SymDim, ShapeError>(a));
    assert((m as int) * 0 + 0 * (n as int) == 0);
    assert(a.spec_mul(b) == Ok::<SymDim, ShapeError>(whole));
    assert(spec_volume(input, false) == Ok::<SymDim, ShapeError>(whole));
    assert(target.drop_last() =~= none);
    assert(spec_volume(none, true) == Ok::<SymDim, ShapeError>(unit()));
    assert(spec_volume(target, true) == Ok::<SymDim, ShapeError>(unit()));
    let c = (m * n) as int;
    assert(c / 1 == c && c % 1 == 0 && 0int / 1 == 0 && 0int % 1 == 0);
    assert(whole.spec_div(unit()) == Ok::<(SymDim, i64), ShapeError>((whole, 0i64)));
    assert(target.update(0, whole) =~= seq![whole]);
    assert(spec_fill_infer(input, target) == Ok::<Seq<SymDim>, ShapeError>(seq![whole]));
    assert(spec_compute_shape(input, target) == Ok::<Seq<SymDim>, ShapeError>(seq![whole]));
    // the one dimension is a size, and the elements fill it
    let dims = seq![whole];
    assert(dims[0] == whole);
    assert(spec_first_unsized(dims, 1) == 1);
    assert(spec_first_unsized(dims, 0) == 1);
    assert(spec_sizes_of_dims(dims) =~= seq![(m * n) as u64]);
    let flat = seq![(m * n) as u64];
    assert(flat.drop_last() =~= Seq::<u64>::empty());
    assert(spec_count(Seq::<u64>::empty()) == 1);
    assert(spec_count(flat) == 1 * ((m * n) as nat));
}

} // verus!
