use vstd::prelude::*;
use crate::dim::SymDim;
use crate::error::ShapeError;

verus! {

/// The element type of a tensor.
#[derive(Clone, Copy, Debug, PartialEq, Eq, Structural, Hash)]
pub enum DatumType {
    Bool,
    U8,
    I8,
    I32,
    I64,
    F32,
    F64,
    Dim,
}

/// A constant tensor: its concrete shape and its elements in row-major order.
#[derive(Clone, Debug, PartialEq, Eq)]
pub struct Tensor {
    pub shape: Vec<u64>,
    pub data: Vec<i64>,
}

/// What a constant tensor is: two sequences.
pub struct TensorView {
    pub shape: Seq<u64>,
    pub data: Seq<i64>,
}

impl View for Tensor {
    type V = TensorView;

    open spec fn view(&self) -> TensorView {
        TensorView { shape: self.shape@, data: self.data@ }
    }
}

/// What is known of a tensor before inference is done. Each of the three
/// properties may be unknown; of a shape the rank may be unknown (`None`), or
/// the rank known and some dimensions not.
#[derive(Clone, Debug, PartialEq, Eq)]
pub struct PartialFact {
    pub datum_type: Option<DatumType>,
    pub shape: Option<Vec<Option<SymDim>>>,
    pub value: Option<Tensor>,
}

/// What a fact states, as plain values. A resolved fact has the same model: one
/// in which type, rank and every dimension are known.
pub struct FactView {
    pub datum_type: Option<DatumType>,
    pub shape: Option<Seq<Option<SymDim>>>,
    pub value: Option<TensorView>,
}

impl View for PartialFact {
    type V = FactView;

    open spec fn view(&self) -> FactView {
        FactView {
            datum_type: self.datum_type,
            shape: match self.shape {
                Some(dims) => Some(dims@),
                None => None,
            },
            value: match self.value {
                Some(t) => Some(t@),
                None => None,
            },
        }
    }
}

/// What is known of a tensor once inference is done: its type and every
/// dimension, which may still contain the symbol. The value stays optional.
#[derive(Clone, Debug, PartialEq, Eq)]
pub struct ResolvedFact {
    pub datum_type: DatumType,
    pub shape: Vec<SymDim>,
    pub value: Option<Tensor>,
}

impl View for ResolvedFact {
    type V = FactView;

    open spec fn view(&self) -> FactView {
        FactView {
            datum_type: Some(self.datum_type),
            shape: Some(known(self.shape@)),
            value: match self.value {
                Some(t) => Some(t@),
                None => None,
            },
        }
    }
}

/// The dimensions as a list in which every dimension is known.
pub open spec fn known(dims: Seq<SymDim>) -> Seq<Option<SymDim>> {
    Seq::new(dims.len(), |i: int| Some(dims[i]))
}

/// Whether every dimension of the list is known.
pub open spec fn all_some(dims: Seq<Option<SymDim>>) -> bool {
    forall|i: int| 0 <= i < dims.len() ==> (#[trigger] dims[i]) is Some
}

/// The dimensions of a list in which every dimension is known.
pub open spec fn unwrapped(dims: Seq<Option<SymDim>>) -> Seq<SymDim>
    recommends
        all_some(dims),
{
    Seq::new(dims.len(), |i: int| dims[i]->Some_0)
}

/// Two statements of one property agree unless both are known and differ; what
/// either knows is then known.
pub open spec fn unify_item<T>(a: Option<T>, b: Option<T>) -> Result<Option<T>, ShapeError> {
    match (a, b) {
        (Some(x), Some(y)) => if x == y {
            Ok(a)
        } else {
            Err(ShapeError::Contradiction)
        },
        (Some(_), None) => Ok(a),
        (None, _) => Ok(b),
    }
}

/// Two lists of dimensions agree when they have one rank and no dimension is
/// known to both with different values.
pub open spec fn dims_agree(a: Seq<Option<SymDim>>, b: Seq<Option<SymDim>>) -> bool {
    &&& a.len() == b.len()
    &&& forall|i: int| 0 <= i < a.len() ==> unify_item(#[trigger] a[i], b[i]) is Ok
}

/// Dimension by dimension, what either list knows.
pub open spec fn merge_dims(a: Seq<Option<SymDim>>, b: Seq<Option<SymDim>>) -> Seq<
    Option<SymDim>,
> {
    Seq::new(
        a.len(),
        |i: int|
            if a[i] is Some {
                a[i]
            } else {
                b[i]
            },
    )
}

pub open spec fn unify_shape(a: Option<Seq<Option<SymDim>>>, b: Option<Seq<Option<SymDim>>>) -> Result<
    Option<Seq<Option<SymDim>>>,
    ShapeError,
> {
    match (a, b) {
        (Some(x), Some(y)) => if dims_agree(x, y) {
            Ok(Some(merge_dims(x, y)))
        } else {
            Err(ShapeError::Contradiction)
        },
        (Some(_), None) => Ok(a),
        (None, _) => Ok(b),
    }
}

/// The union of what two facts know, or `Contradiction` where they state
/// different values for a type, a rank, a dimension or a value.
pub open spec fn spec_unify(a: FactView, b: FactView) -> Result<FactView, ShapeError> {
    match (
        unify_item(a.datum_type, b.datum_type),
        unify_shape(a.shape, b.shape),
        unify_item(a.value, b.value),
    ) {
        (Ok(datum_type), Ok(shape), Ok(value)) => Ok(FactView { datum_type, shape, value }),
        _ => Err(ShapeError::Contradiction),
    }
}

/// Whether `fine` states everything that `coarse` states, with the same values.
pub open spec fn refines(fine: FactView, coarse: FactView) -> bool {
    &&& coarse.datum_type is Some ==> fine.datum_type == coarse.datum_type
    &&& coarse.value is Some ==> fine.value == coarse.value
    &&& coarse.shape matches Some(c) ==> {
        &&& fine.shape is Some
        &&& fine.shape->Some_0.len() == c.len()
        &&& forall|i: int| 0 <= i < c.len() && (#[trigger] c[i]) is Some ==> fine.shape->Some_0[i] == c[i]
    }
}

/// Whether a fact knows its type, its rank and every dimension.
pub open spec fn is_resolved(f: FactView) -> bool {
    &&& f.datum_type is Some
    &&& f.shape matches Some(dims) && all_some(dims)
}

/// The elements of a vector in a vector of their own.
pub fn copy_of<T: Copy>(v: &Vec<T>) -> (r: Vec<T>)
    ensures
        r@ == v@,
{
    let mut out: Vec<T> = Vec::new();
    let mut i: usize = 0;
    while i < v.len()
        invariant
            i <= v@.len(),
            out@ == v@.take(i as int),
        decreases v@.len() - i,
    {
        out.push(v[i]);
        assert(out@ =~= v@.take(i + 1));
        i += 1;
    }
    assert(v@.take(i as int) =~= v@);
    out
}

pub fn same_sizes(a: &Vec<u64>, b: &Vec<u64>) -> (r: bool)
    ensures
        r == (a@ == b@),
{
    if a.len() != b.len() {
        return false;
    }
    let mut i: usize = 0;
    while i < a.len()
        invariant
            a@.len() == b@.len(),
            i <= a@.len(),
            a@.take(i as int) == b@.take(i as int),
        decreases a@.len() - i,
    {
        if a[i] != b[i] {
            return false;
        }
        assert(a@.take(i + 1) =~= a@.take(i as int).push(a@[i as int]));
        assert(b@.take(i + 1) =~= b@.take(i as int).push(b@[i as int]));
        i += 1;
    }
    assert(a@.take(i as int) =~= a@ && b@.take(i as int) =~= b@);
    true
}

pub fn same_elements(a: &Vec<i64>, b: &Vec<i64>) -> (r: bool)
    ensures
        r == (a@ == b@),
{
    if a.len() != b.len() {
        return false;
    }
    let mut i: usize = 0;
    while i < a.len()
        invariant
            a@.len() == b@.len(),
            i <= a@.len(),
            a@.take(i as int) == b@.take(i as int),
        decreases a@.len() - i,
    {
        if a[i] != b[i] {
            return false;
        }
        assert(a@.take(i + 1) =~= a@.take(i as int).push(a@[i as int]));
        assert(b@.take(i + 1) =~= b@.take(i as int).push(b@[i as int]));
        i += 1;
    }
    assert(a@.take(i as int) =~= a@ && b@.take(i as int) =~= b@);
    true
}

impl Tensor {
    pub fn same_as(&self, other: &Tensor) -> (r: bool)
        ensures
            r == (self@ == other@),
    {
        same_sizes(&self.shape, &other.shape) && same_elements(&self.data, &other.data)
    }

    pub fn copy(&self) -> (r: Tensor)
        ensures
            r@ == self@,
    {
        Tensor { shape: copy_of(&self.shape), data: copy_of(&self.data) }
    }
}

pub fn copy_value(v: &Option<Tensor>) -> (r: Option<Tensor>)
    ensures
        r is Some == v is Some,
        v matches Some(t) ==> r->Some_0@ == t@,
{
    match v {
        Some(t) => Some(t.copy()),
        None => None,
    }
}

/// The dimensions, where every one of them is known.
pub fn known_dims(dims: &Vec<Option<SymDim>>) -> (r: Option<Vec<SymDim>>)
    ensures
        r is Some <==> all_some(dims@),
        r matches Some(v) ==> v@ == unwrapped(dims@) && known(v@) == dims@,
{
    let mut shape: Vec<SymDim> = Vec::new();
    let mut i: usize = 0;
    while i < dims.len()
        invariant
            i <= dims@.len(),
            shape@.len() == i,
            forall|j: int| 0 <= j < i ==> #[trigger] dims@[j] == Some(shape@[j]),
        decreases dims@.len() - i,
    {
        match dims[i] {
            Some(d) => {
                shape.push(d);
            },
            None => {
                assert(dims@[i as int] is None);
                return None;
            },
        }
        i += 1;
    }
    assert(known(shape@) =~= dims@);
    assert(shape@ =~= unwrapped(dims@));
    Some(shape)
}

/// The dimensions as a list in which every dimension is known.
pub fn all_known(dims: &Vec<SymDim>) -> (r: Vec<Option<SymDim>>)
    ensures
        r@ == known(dims@),
{
    let mut out: Vec<Option<SymDim>> = Vec::new();
    let mut i: usize = 0;
    while i < dims.len()
        invariant
            i <= dims@.len(),
            out@.len() == i,
            forall|j: int| 0 <= j < i ==> #[trigger] out@[j] == Some(dims@[j]),
        decreases dims@.len() - i,
    {
        out.push(Some(dims[i]));
        i += 1;
    }
    assert(out@ =~= known(dims@));
    out
}

/// Unifies two lists of dimensions of one tensor.
pub fn unify_dims(a: &Vec<Option<SymDim>>, b: &Vec<Option<SymDim>>) -> (r: Result<
    Vec<Option<SymDim>>,
    ShapeError,
>)
    ensures
        match r {
            Ok(v) => dims_agree(a@, b@) && v@ == merge_dims(a@, b@),
            Err(e) => !dims_agree(a@, b@) && e == ShapeError::Contradiction,
        },
{
    if a.len() != b.len() {
        return Err(ShapeError::Contradiction);
    }
    let mut out: Vec<Option<SymDim>> = Vec::new();
    let mut i: usize = 0;
    while i < a.len()
        invariant
            a@.len() == b@.len(),
            i <= a@.len(),
            out@.len() == i,
            forall|j: int| 0 <= j < i ==> unify_item(#[trigger] a@[j], b@[j]) is Ok,
            forall|j: int| 0 <= j < i ==> #[trigger] out@[j] == merge_dims(a@, b@)[j],
        decreases a@.len() - i,
    {
        let merged = match (a[i], b[i]) {
            (Some(x), Some(y)) => {
                if x != y {
                    assert(unify_item(a@[i as int], b@[i as int]) is Err);
                    return Err(ShapeError::Contradiction);
                }
                Some(x)
            },
            (Some(x), None) => Some(x),
            (None, y) => y,
        };
        out.push(merged);
        i += 1;
    }
    assert(out@ =~= merge_dims(a@, b@));
    Ok(out)
}

impl PartialFact {
    /// The fact that knows nothing.
    pub fn unknown() -> (r: PartialFact)
        ensures
            r@ == (FactView { datum_type: None, shape: None, value: None }),
    {
        PartialFact { datum_type: None, shape: None, value: None }
    }

    /// The union of what `self` and `other` know; `Contradiction` exactly when
    /// they state different values for one property.
    pub fn unify(&self, other: &PartialFact) -> (r: Result<PartialFact, ShapeError>)
        ensures
            match r {
                Ok(f) => spec_unify(self@, other@) == Ok::<FactView, ShapeError>(f@),
                Err(e) => spec_unify(self@, other@) == Err::<FactView, ShapeError>(e),
            },
    {
        let datum_type = match (self.datum_type, other.datum_type) {
            (Some(x), Some(y)) => {
                if x != y {
                    return Err(ShapeError::Contradiction);
                }
                Some(x)
            },
            (Some(x), None) => Some(x),
            (None, y) => y,
        };
        let shape = match (&self.shape, &other.shape) {
            (Some(x), Some(y)) => match unify_dims(x, y) {
                Ok(v) => Some(v),
                Err(e) => {
                    return Err(e);
                },
            },
            (Some(x), None) => Some(copy_of(x)),
            (None, Some(y)) => Some(copy_of(y)),
            (None, None) => None,
        };
        let value = match (&self.value, &other.value) {
            (Some(x), Some(y)) => {
                if !x.same_as(y) {
                    return Err(ShapeError::Contradiction);
                }
                Some(x.copy())
            },
            (Some(x), None) => Some(x.copy()),
            (None, Some(y)) => Some(y.copy()),
            (None, None) => None,
        };
        Ok(PartialFact { datum_type, shape, value })
    }

    /// The resolved fact, where type, rank and every dimension are known; the
    /// value may be missing.
    pub fn try_resolve(&self) -> (r: Option<ResolvedFact>)
        ensures
            r is Some <==> is_resolved(self@),
            r matches Some(f) ==> f@ == self@,
    {
        let datum_type = match self.datum_type {
            Some(t) => t,
            None => {
                return None;
            },
        };
        let dims = match &self.shape {
            Some(dims) => dims,
            None => {
                return None;
            },
        };
        let shape = match known_dims(dims) {
            Some(shape) => shape,
            None => {
                return None;
            },
        };
        Some(ResolvedFact { datum_type, shape, value: copy_value(&self.value) })
    }
}

/// Unifying a fact with itself gives that fact.
pub proof fn lemma_unify_idempotent(a: FactView)
    ensures
        spec_unify(a, a) == Ok::<FactView, ShapeError>(a),
{
    if let Some(dims) = a.shape {
        assert(merge_dims(dims, dims) =~= dims);
    }
}

/// Unifying in either order gives the same fact, or fails in either order.
pub proof fn lemma_unify_commutes(a: FactView, b: FactView)
    ensures
        spec_unify(a, b) == spec_unify(b, a),
{
    if let (Some(x), Some(y)) = (a.shape, b.shape) {
        if dims_agree(x, y) {
            assert forall|i: int| 0 <= i < y.len() implies unify_item(#[trigger] y[i], x[i]) is Ok by {
                assert(unify_item(x[i], y[i]) is Ok);
            }
            assert forall|i: int| 0 <= i < x.len() implies merge_dims(x, y)[i] == merge_dims(y, x)[i] by {
                assert(unify_item(x[i], y[i]) is Ok);
            }
            assert(merge_dims(x, y) =~= merge_dims(y, x));
        } else if dims_agree(y, x) {
            assert forall|i: int| 0 <= i < x.len() implies unify_item(#[trigger] x[i], y[i]) is Ok by {
                assert(unify_item(y[i], x[i]) is Ok);
            }
        }
    }
}

/// Unification only adds knowledge: what either fact knew, the result states
/// with the same value. So a property moves from unknown to known or stays, and
/// never from one known value to another.
pub proof fn lemma_unify_refines(a: FactView, b: FactView)
    requires
        spec_unify(a, b) is Ok,
    ensures
        refines(spec_unify(a, b)->Ok_0, a),
        refines(spec_unify(a, b)->Ok_0, b),
{
    if let (Some(x), Some(y)) = (a.shape, b.shape) {
        assert forall|i: int| 0 <= i < y.len() && (#[trigger] y[i]) is Some implies merge_dims(x, y)[i] == y[i] by {
            assert(unify_item(x[i], y[i]) is Ok);
        }
    }
}

/// A fact that already states what the other states is left as it is: applying
/// a satisfied constraint again changes nothing.
pub proof fn lemma_unify_with_refined(a: FactView, b: FactView)
    requires
        refines(a, b),
    ensures
        spec_unify(a, b) == Ok::<FactView, ShapeError>(a),
{
    if let (Some(x), Some(y)) = (a.shape, b.shape) {
        assert forall|i: int| 0 <= i < x.len() implies unify_item(#[trigger] x[i], y[i]) is Ok by {
            if y[i] is Some {
                assert(x[i] == y[i]);
            }
        }
        assert forall|i: int| 0 <= i < x.len() implies merge_dims(x, y)[i] == x[i] by {
            if y[i] is Some {
                assert(x[i] == y[i]);
            }
        }
        assert(merge_dims(x, y) =~= x);
    }
}

} // verus!
