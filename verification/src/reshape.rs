use vstd::prelude::*;
use crate::dim::{lemma_div_is_sound, lemma_div_undoes_mul, lemma_mul_is_sound, SymDim};
use crate::error::ShapeError;

verus! {

/// The slot of a target shape that stands for "copy the input dimension".
pub open spec fn copy_mark() -> SymDim {
    SymDim { constant: 0, coeff: 0 }
}

/// The slot of a target shape that stands for "whatever volume is left".
pub open spec fn infer_mark() -> SymDim {
    SymDim { constant: -1i64, coeff: 0 }
}

/// The dimension 1.
pub open spec fn unit() -> SymDim {
    SymDim { constant: 1, coeff: 0 }
}

/// Multiplies input dimensions, from position `pos` on, into `rem` until `rem`
/// is an exact multiple of `slot`; gives the new `rem` and position. Fails with
/// `InvalidReshape` when the input runs out first, and with the error of the
/// product when a product has none.
pub open spec fn spec_absorb(input: Seq<SymDim>, pos: int, rem: SymDim, slot: SymDim) -> Result<
    (SymDim, int),
    ShapeError,
>
    decreases input.len() - pos,
{
    if rem.divides_evenly(slot) {
        Ok((rem, pos))
    } else if pos < 0 || pos >= input.len() {
        Err(ShapeError::InvalidReshape)
    } else {
        match rem.spec_mul(input[pos]) {
            Err(e) => Err(e),
            Ok(next) => spec_absorb(input, pos + 1, next, slot),
        }
    }
}

/// One scan over the slots of `shape` from slot `i` on, up to the first slot
/// that asks for the left-over volume. A copy slot takes the input dimension at
/// `pos` and uses it up, which is only allowed while no input volume is pending
/// (`rem` is 1): the next copy slot takes the next input dimension. After each
/// slot, `rem` is the volume taken from the input and not yet given to a slot.
pub open spec fn spec_zero_pass(
    input: Seq<SymDim>,
    shape: Seq<SymDim>,
    i: int,
    pos: int,
    rem: SymDim,
) -> Result<Seq<SymDim>, ShapeError>
    decreases shape.len() - i,
{
    if i < 0 || i >= shape.len() {
        Ok(shape)
    } else if shape[i] == infer_mark() {
        Ok(shape)
    } else if shape[i] == copy_mark() && (rem != unit() || pos < 0 || pos >= input.len()) {
        Err(ShapeError::InvalidReshape)
    } else {
        let copies = shape[i] == copy_mark();
        let slot = if copies {
            input[pos]
        } else {
            shape[i]
        };
        let pending = if copies {
            input[pos]
        } else {
            rem
        };
        let from = if copies {
            pos + 1
        } else {
            pos
        };
        match spec_absorb(input, from, pending, slot) {
            Err(e) => Err(e),
            Ok((taken, next_pos)) => match taken.spec_div(slot) {
                Err(e) => Err(e),
                Ok((q, _)) => spec_zero_pass(input, shape.update(i, slot), i + 1, next_pos, q),
            },
        }
    }
}

/// The product of the dimensions, from the left, starting at 1; with
/// `skip_infer` the slots that ask for the left-over volume are left out.
pub open spec fn spec_volume(dims: Seq<SymDim>, skip_infer: bool) -> Result<SymDim, ShapeError>
    decreases dims.len(),
{
    if dims.len() == 0 {
        Ok(unit())
    } else {
        match spec_volume(dims.drop_last(), skip_infer) {
            Err(e) => Err(e),
            Ok(v) => if skip_infer && dims.last() == infer_mark() {
                Ok(v)
            } else {
                v.spec_mul(dims.last())
            },
        }
    }
}

/// The first position from `from` on whose slot asks for the left-over volume,
/// or the length of `shape` if there is none.
pub open spec fn spec_find_infer(shape: Seq<SymDim>, from: int) -> int
    decreases shape.len() - from,
{
    if from < 0 || from >= shape.len() {
        shape.len() as int
    } else if shape[from] == infer_mark() {
        from
    } else {
        spec_find_infer(shape, from + 1)
    }
}

/// The last step: the one slot that asks for the left-over volume gets the
/// volume of the input divided by the volume of the other slots. Two such slots,
/// or a division that is not exact, make the shape invalid.
pub open spec fn spec_fill_infer(input: Seq<SymDim>, shape: Seq<SymDim>) -> Result<
    Seq<SymDim>,
    ShapeError,
> {
    let at = spec_find_infer(shape, 0);
    if at >= shape.len() {
        Ok(shape)
    } else if spec_find_infer(shape, at + 1) < shape.len() {
        Err(ShapeError::InvalidReshape)
    } else {
        match spec_volume(input, false) {
            Err(e) => Err(e),
            Ok(input_vol) => match spec_volume(shape, true) {
                Err(e) => Err(e),
                Ok(shape_vol) => match input_vol.spec_div(shape_vol) {
                    Ok((q, r)) => if r == 0 {
                        Ok(shape.update(at, q))
                    } else {
                        Err(ShapeError::InvalidReshape)
                    },
                    Err(_) => Err(ShapeError::InvalidReshape),
                },
            },
        }
    }
}

/// The output shape of a reshape of a tensor of shape `input` by the target
/// `shape_spec`: one scan from the front, one from the back, then the slot for
/// the left-over volume.
pub open spec fn spec_compute_shape(input: Seq<SymDim>, shape_spec: Seq<SymDim>) -> Result<
    Seq<SymDim>,
    ShapeError,
> {
    match spec_zero_pass(input, shape_spec, 0, 0, unit()) {
        Err(e) => Err(e),
        Ok(front) => match spec_zero_pass(input.reverse(), front.reverse(), 0, 0, unit()) {
            Err(e) => Err(e),
            Ok(back) => spec_fill_infer(input, back.reverse()),
        },
    }
}

/// Whether an outcome on vectors is the given outcome on sequences.
pub open spec fn same_outcome(r: Result<Vec<SymDim>, ShapeError>, s: Result<Seq<SymDim>, ShapeError>) -> bool {
    match r {
        Ok(v) => s == Ok::<Seq<SymDim>, ShapeError>(v@),
        Err(e) => s == Err::<Seq<SymDim>, ShapeError>(e),
    }
}

/// The dimensions in the opposite order.
pub fn reversed(dims: &[SymDim]) -> (r: Vec<SymDim>)
    ensures
        r@ == dims@.reverse(),
{
    let mut out: Vec<SymDim> = Vec::new();
    let n: usize = dims.len();
    let mut i: usize = 0;
    while i < n
        invariant
            n == dims@.len(),
            i <= n,
            out@.len() == i,
            forall|j: int| 0 <= j < i ==> out@[j] == dims@[n - 1 - j],
        decreases n - i,
    {
        out.push(dims[n - 1 - i]);
        i += 1;
    }
    assert(out@ =~= dims@.reverse());
    out
}

/// The dimensions in a vector of their own.
pub fn copied(dims: &[SymDim]) -> (r: Vec<SymDim>)
    ensures
        r@ == dims@,
{
    let mut out: Vec<SymDim> = Vec::new();
    let mut i: usize = 0;
    while i < dims.len()
        invariant
            i <= dims@.len(),
            out@ == dims@.take(i as int),
        decreases dims@.len() - i,
    {
        out.push(dims[i]);
        assert(out@ =~= dims@.take(i + 1));
        i += 1;
    }
    assert(dims@.take(i as int) =~= dims@);
    out
}

/// One scan over `shape`; see `spec_zero_pass`.
pub fn deal_with_zero(input: &[SymDim], given: &[SymDim]) -> (r: Result<Vec<SymDim>, ShapeError>)
    ensures
        same_outcome(r, spec_zero_pass(input@, given@, 0, 0, unit())),
{
    let mut shape = copied(given);
    let one = SymDim::from_integer(1);
    let mut rem = one;
    let mut pos: usize = 0;
    let mut i: usize = 0;
    while i < shape.len()
        invariant
            i <= shape@.len(),
            pos <= input@.len(),
            one == unit(),
            spec_zero_pass(input@, given@, 0, 0, unit()) == spec_zero_pass(
                input@,
                shape@,
                i as int,
                pos as int,
                rem,
            ),
        decreases shape@.len() - i,
    {
        let wanted = shape[i];
        if wanted == SymDim::from_integer(-1) {
            return Ok(shape);
        }
        let ghost pos_in = pos;
        let ghost rem_in = rem;
        let slot = if wanted == SymDim::from_integer(0) {
            if rem != one || pos >= input.len() {
                return Err(ShapeError::InvalidReshape);
            }
            let copy = input[pos];
            rem = copy;
            pos += 1;
            copy
        } else {
            wanted
        };
        let ghost pos0 = pos;
        let ghost rem0 = rem;
        loop
            invariant
                pos0 <= pos <= input@.len(),
                i < shape@.len(),
                shape@[i as int] == wanted,
                wanted != infer_mark(),
                wanted == copy_mark() ==> rem_in == unit() && pos_in < input@.len() && pos0
                    == pos_in + 1 && rem0 == input@[pos_in as int],
                wanted != copy_mark() ==> pos0 == pos_in && rem0 == rem_in,
                slot == (if wanted == copy_mark() {
                    input@[pos_in as int]
                } else {
                    wanted
                }),
                spec_zero_pass(input@, given@, 0, 0, unit()) == spec_zero_pass(
                    input@,
                    shape@,
                    i as int,
                    pos_in as int,
                    rem_in,
                ),
                spec_absorb(input@, pos0 as int, rem0, slot) == spec_absorb(
                    input@,
                    pos as int,
                    rem,
                    slot,
                ),
            ensures
                rem.divides_evenly(slot),
            decreases input@.len() - pos,
        {
            let exact = match rem.maybe_div(&slot) {
                Ok((_, r)) => r == 0,
                Err(_) => false,
            };
            if exact {
                break ;
            }
            if pos >= input.len() {
                return Err(ShapeError::InvalidReshape);
            }
            match rem.mul(&input[pos]) {
                Err(e) => {
                    return Err(e);
                },
                Ok(next) => {
                    rem = next;
                },
            }
            pos += 1;
        }
        match rem.maybe_div(&slot) {
            Err(e) => {
                return Err(e);
            },
            Ok((q, _)) => {
                rem = q;
            },
        }
        shape.set(i, slot);
        i += 1;
    }
    Ok(shape)
}

/// The product of the dimensions; see `spec_volume`.
pub fn volume(dims: &[SymDim], skip_infer: bool) -> (r: Result<SymDim, ShapeError>)
    ensures
        r == spec_volume(dims@, skip_infer),
{
    let mut acc = SymDim::from_integer(1);
    let mut i: usize = 0;
    while i < dims.len()
        invariant
            i <= dims@.len(),
            spec_volume(dims@.take(i as int), skip_infer) == Ok::<SymDim, ShapeError>(acc),
        decreases dims@.len() - i,
    {
        proof {
            assert(dims@.take(i + 1).drop_last() =~= dims@.take(i as int));
        }
        let d = dims[i];
        if !(skip_infer && d == SymDim::from_integer(-1)) {
            match acc.mul(&d) {
                Err(e) => {
                    proof {
                        lemma_volume_fails_on(dims@, skip_infer, i + 1);
                    }
                    return Err(e);
                },
                Ok(next) => {
                    acc = next;
                },
            }
        }
        i += 1;
    }
    proof {
        assert(dims@.take(i as int) =~= dims@);
    }
    Ok(acc)
}

/// A product that fails on a prefix fails in the same way on the whole.
pub proof fn lemma_volume_fails_on(dims: Seq<SymDim>, skip_infer: bool, n: int)
    requires
        0 <= n <= dims.len(),
        spec_volume(dims.take(n), skip_infer) is Err,
    ensures
        spec_volume(dims, skip_infer) == spec_volume(dims.take(n), skip_infer),
    decreases dims.len() - n,
{
    if n == dims.len() {
        assert(dims.take(n) =~= dims);
    } else {
        assert(dims.take(n + 1).drop_last() =~= dims.take(n));
        lemma_volume_fails_on(dims, skip_infer, n + 1);
    }
}

/// The first slot from `from` on that asks for the left-over volume.
pub fn find_infer(shape: &[SymDim], from: usize) -> (r: usize)
    ensures
        r == spec_find_infer(shape@, from as int),
{
    let mut i: usize = from;
    while i < shape.len()
        invariant
            spec_find_infer(shape@, from as int) == spec_find_infer(shape@, i as int),
        decreases shape@.len() - i,
    {
        if shape[i] == SymDim::from_integer(-1) {
            return i;
        }
        i += 1;
    }
    shape.len()
}

/// The last step of the computation; see `spec_fill_infer`.
pub fn fill_infer(input: &[SymDim], shape: Vec<SymDim>) -> (r: Result<Vec<SymDim>, ShapeError>)
    ensures
        same_outcome(r, spec_fill_infer(input@, shape@)),
{
    let mut shape = shape;
    let at = find_infer(shape.as_slice(), 0);
    if at >= shape.len() {
        return Ok(shape);
    }
    if find_infer(shape.as_slice(), at + 1) < shape.len() {
        return Err(ShapeError::InvalidReshape);
    }
    let input_vol = match volume(input, false) {
        Err(e) => {
            return Err(e);
        },
        Ok(v) => v,
    };
    let shape_vol = match volume(shape.as_slice(), true) {
        Err(e) => {
            return Err(e);
        },
        Ok(v) => v,
    };
    match input_vol.maybe_div(&shape_vol) {
        Ok((q, r)) => {
            if r != 0 {
                return Err(ShapeError::InvalidReshape);
            }
            shape.set(at, q);
            Ok(shape)
        },
        Err(_) => Err(ShapeError::InvalidReshape),
    }
}

/// The output shape of a reshape of a tensor of shape `input` by the target
/// `shape_spec`, in which 0 copies the input dimension at that place and -1
/// takes the volume that the other slots leave.
pub fn compute_shape(input: &[SymDim], shape_spec: &[SymDim]) -> (r: Result<Vec<SymDim>, ShapeError>)
    ensures
        same_outcome(r, spec_compute_shape(input@, shape_spec@)),
        r matches Ok(v) ==> {
            &&& v@.len() == shape_spec@.len()
            &&& forall|j: int|
                0 <= j < v@.len() && !is_mark(shape_spec@[j]) ==> #[trigger] v@[j] == shape_spec@[j]
        },
{
    proof {
        if spec_compute_shape(input@, shape_spec@) is Ok {
            lemma_compute_shape_keeps_plain_slots(input@, shape_spec@);
        }
    }
    let front = match deal_with_zero(input, shape_spec) {
        Err(e) => {
            return Err(e);
        },
        Ok(s) => s,
    };
    let input_rev = reversed(input);
    let front_rev = reversed(front.as_slice());
    let back = match deal_with_zero(input_rev.as_slice(), front_rev.as_slice()) {
        Err(e) => {
            return Err(e);
        },
        Ok(s) => s,
    };
    let done = reversed(back.as_slice());
    fill_infer(input, done)
}

/// Whether no slot of the shape is a mark: none asks to copy an input dimension
/// and none asks for the left-over volume.
pub open spec fn without_marks(shape: Seq<SymDim>) -> bool {
    forall|i: int|
        0 <= i < shape.len() ==> #[trigger] shape[i] != copy_mark() && shape[i] != infer_mark()
}

/// What the scans rely on for a dimension that is no mark: 1 times it is
/// itself, it divides itself exactly with quotient 1, and it divides 1 exactly
/// only where it is 1.
pub proof fn lemma_unit_facts(d: SymDim)
    requires
        d != copy_mark(),
        d != infer_mark(),
    ensures
        unit().spec_mul(d) == Ok::<SymDim, ShapeError>(d),
        d.spec_div(d) == Ok::<(SymDim, i64), ShapeError>((unit(), 0i64)),
        unit().divides_evenly(d) <==> d == unit(),
{
    let c = d.constant as int;
    let k = d.coeff as int;
    assert(1 * c == c && 1 * k + 0 * c == k);
    if k != 0 {
        assert(k % k == 0 && k / k == 1 && 0int % k == 0 && 0int / k == 0) by (nonlinear_arith)
            requires
                k != 0,
        ;
        assert(1 * c == c && 0 * c == 0);
    } else {
        assert(c % c == 0 && c / c == 1 && 0int % c == 0 && 0int / c == 0) by (nonlinear_arith)
            requires
                c != 0,
        ;
        assert(c != 1 ==> 1int % c == 1) by (nonlinear_arith)
            requires
                c != 0,
                c != -1,
        ;
        assert(1int % 1int == 0 && 1int / 1int == 1);
    }
}

/// From 1, with only dimensions 1 pending before it, the scan takes exactly the
/// dimension at `i` when the slot is that dimension.
pub proof fn lemma_absorb_own_dim(shape: Seq<SymDim>, i: int, pos: int)
    requires
        without_marks(shape),
        0 <= pos <= i < shape.len(),
        forall|j: int| pos <= j < i ==> shape[j] == unit(),
        shape[i] != unit(),
    ensures
        spec_absorb(shape, pos, unit(), shape[i]) == Ok::<(SymDim, int), ShapeError>(
            (shape[i], i + 1),
        ),
    decreases i - pos,
{
    let d = shape[i];
    lemma_unit_facts(d);
    if pos < i {
        assert(shape[pos] == unit());
        lemma_unit_facts(unit());
        lemma_absorb_own_dim(shape, i, pos + 1);
    } else {
        assert(spec_absorb(shape, i + 1, d, d) == Ok::<(SymDim, int), ShapeError>((d, i + 1)));
    }
}

/// A scan of a shape without marks over itself changes nothing.
pub proof fn lemma_zero_pass_own_shape(shape: Seq<SymDim>, i: int, pos: int)
    requires
        without_marks(shape),
        0 <= pos <= i <= shape.len(),
        forall|j: int| pos <= j < i ==> shape[j] == unit(),
    ensures
        spec_zero_pass(shape, shape, i, pos, unit()) == Ok::<Seq<SymDim>, ShapeError>(shape),
    decreases shape.len() - i,
{
    if i < shape.len() {
        let d = shape[i];
        lemma_unit_facts(d);
        assert(shape.update(i, d) =~= shape);
        if d == unit() {
            assert(spec_absorb(shape, pos, unit(), d) == Ok::<(SymDim, int), ShapeError>(
                (unit(), pos),
            ));
            lemma_zero_pass_own_shape(shape, i + 1, pos);
        } else {
            lemma_absorb_own_dim(shape, i, pos);
            lemma_zero_pass_own_shape(shape, i + 1, i + 1);
        }
    }
}

/// In a shape without marks no slot asks for the left-over volume.
pub proof fn lemma_no_infer_slot(shape: Seq<SymDim>, from: int)
    requires
        without_marks(shape),
        0 <= from,
    ensures
        spec_find_infer(shape, from) == shape.len(),
    decreases shape.len() - from,
{
    if from < shape.len() {
        assert(shape[from] != infer_mark());
        lemma_no_infer_slot(shape, from + 1);
    }
}

/// Reshaping to the shape that the tensor already has gives that shape: for
/// every shape whose dimensions are neither 0 nor -1, literal or symbolic.
pub proof fn lemma_reshape_to_own_shape(shape: Seq<SymDim>)
    requires
        without_marks(shape),
    ensures
        spec_compute_shape(shape, shape) == Ok::<Seq<SymDim>, ShapeError>(shape),
{
    lemma_zero_pass_own_shape(shape, 0, 0);
    let rev = shape.reverse();
    assert(without_marks(rev)) by {
        assert forall|i: int| 0 <= i < rev.len() implies #[trigger] rev[i] != copy_mark() && rev[i]
            != infer_mark() by {
            assert(rev[i] == shape[shape.len() - 1 - i]);
        }
    }
    lemma_zero_pass_own_shape(rev, 0, 0);
    assert(rev.reverse() =~= shape);
    lemma_no_infer_slot(shape, 0);
}

/// Whether a slot is a mark: it asks to copy an input dimension or asks for
/// the left-over volume.
pub open spec fn is_mark(slot: SymDim) -> bool {
    slot == copy_mark() || slot == infer_mark()
}

/// A scan keeps the rank, the slots before its start and every slot that is
/// not 0.
pub proof fn lemma_zero_pass_keeps(input: Seq<SymDim>, shape: Seq<SymDim>, i: int, pos: int, rem: SymDim)
    requires
        0 <= i,
        spec_zero_pass(input, shape, i, pos, rem) is Ok,
    ensures
        spec_zero_pass(input, shape, i, pos, rem)->Ok_0.len() == shape.len(),
        forall|j: int|
            0 <= j < shape.len() && (j < i || shape[j] != copy_mark()) ==> #[trigger] spec_zero_pass(
                input,
                shape,
                i,
                pos,
                rem,
            )->Ok_0[j] == shape[j],
    decreases shape.len() - i,
{
    if i < shape.len() && shape[i] != infer_mark() {
        let copies = shape[i] == copy_mark();
        let slot = if copies {
            input[pos]
        } else {
            shape[i]
        };
        let pending = if copies {
            input[pos]
        } else {
            rem
        };
        let from = if copies {
            pos + 1
        } else {
            pos
        };
        let (taken, next_pos) = spec_absorb(input, from, pending, slot)->Ok_0;
        let (q, _) = taken.spec_div(slot)->Ok_0;
        let next = shape.update(i, slot);
        lemma_zero_pass_keeps(input, next, i + 1, next_pos, q);
        let out = spec_zero_pass(input, shape, i, pos, rem)->Ok_0;
        assert forall|j: int|
            0 <= j < shape.len() && (j < i || shape[j] != copy_mark()) implies out[j]
            == shape[j] by {
            assert(next[j] == shape[j]);
        }
    }
}

/// Where a slot asks for the left-over volume, the search finds such a slot.
pub proof fn lemma_find_infer_is_mark(shape: Seq<SymDim>, from: int)
    requires
        0 <= from,
        spec_find_infer(shape, from) < shape.len(),
    ensures
        from <= spec_find_infer(shape, from),
        shape[spec_find_infer(shape, from)] == infer_mark(),
    decreases shape.len() - from,
{
    if from < shape.len() && shape[from] != infer_mark() {
        lemma_find_infer_is_mark(shape, from + 1);
    }
}

/// The output shape has the rank of the target, and every slot of the target
/// that is neither 0 nor -1 stands in it unchanged.
pub proof fn lemma_compute_shape_keeps_plain_slots(input: Seq<SymDim>, shape_spec: Seq<SymDim>)
    requires
        spec_compute_shape(input, shape_spec) is Ok,
    ensures
        spec_compute_shape(input, shape_spec)->Ok_0.len() == shape_spec.len(),
        forall|j: int|
            0 <= j < shape_spec.len() && !is_mark(shape_spec[j]) ==> #[trigger] spec_compute_shape(
                input,
                shape_spec,
            )->Ok_0[j] == shape_spec[j],
{
    let n = shape_spec.len() as int;
    let front = spec_zero_pass(input, shape_spec, 0, 0, unit())->Ok_0;
    lemma_zero_pass_keeps(input, shape_spec, 0, 0, unit());
    let back = spec_zero_pass(input.reverse(), front.reverse(), 0, 0, unit())->Ok_0;
    lemma_zero_pass_keeps(input.reverse(), front.reverse(), 0, 0, unit());
    let done = back.reverse();
    assert forall|j: int| 0 <= j < n && !is_mark(shape_spec[j]) implies done[j] == shape_spec[j] by {
        assert(front[j] == shape_spec[j]);
        assert(front.reverse()[n - 1 - j] == front[j]);
        assert(back[n - 1 - j] == front.reverse()[n - 1 - j]);
    }
    let at = spec_find_infer(done, 0);
    if at < done.len() {
        lemma_find_infer_is_mark(done, 0);
    }
}

/// The target of `k` slots whose first `done` slots hold the input dimensions
/// at their places and whose other slots ask to copy.
pub open spec fn copied_upto(input: Seq<SymDim>, k: nat, done: int) -> Seq<SymDim> {
    Seq::new(
        k,
        |j: int|
            if j < done {
                input[j]
            } else {
                copy_mark()
            },
    )
}

/// A scan over copy slots alone gives each slot the input dimension at its own
/// place, and fails where a slot has no input dimension.
pub proof fn lemma_zero_pass_copies(input: Seq<SymDim>, k: nat, i: int)
    requires
        without_marks(input),
        0 <= i <= k,
        i <= input.len(),
    ensures
        spec_zero_pass(input, copied_upto(input, k, i), i, i, unit()) == (if k <= input.len() {
            Ok::<Seq<SymDim>, ShapeError>(copied_upto(input, k, k as int))
        } else {
            Err::<Seq<SymDim>, ShapeError>(ShapeError::InvalidReshape)
        }),
    decreases k - i,
{
    let shape = copied_upto(input, k, i);
    if i < k {
        if i < input.len() {
            let d = input[i];
            lemma_unit_facts(d);
            assert(spec_absorb(input, i + 1, d, d) == Ok::<(SymDim, int), ShapeError>((d, i + 1)));
            assert(shape.update(i, d) =~= copied_upto(input, k, i + 1));
            lemma_zero_pass_copies(input, k, i + 1);
        }
    } else {
        assert(shape =~= copied_upto(input, k, k as int));
    }
}

/// A target of `k` zeros copies the input shape: for an input without 0 and
/// -1, the result is the input shape where `k` is its rank, and
/// `InvalidReshape` where `k` is above it.
pub proof fn lemma_all_zeros_copy_input(input: Seq<SymDim>, k: nat)
    requires
        without_marks(input),
        k >= input.len(),
    ensures
        spec_compute_shape(input, copied_upto(input, k, 0)) == (if k == input.len() {
            Ok::<Seq<SymDim>, ShapeError>(input)
        } else {
            Err::<Seq<SymDim>, ShapeError>(ShapeError::InvalidReshape)
        }),
{
    lemma_zero_pass_copies(input, k, 0);
    if k == input.len() {
        assert(copied_upto(input, k, k as int) =~= input);
        let rev = input.reverse();
        assert(without_marks(rev)) by {
            assert forall|i: int| 0 <= i < rev.len() implies #[trigger] rev[i] != copy_mark()
                && rev[i] != infer_mark() by {
                assert(rev[i] == input[input.len() - 1 - i]);
            }
        }
        lemma_zero_pass_own_shape(rev, 0, 0);
        assert(rev.reverse() =~= input);
        lemma_no_infer_slot(input, 0);
    }
}

/// The number of elements of a tensor of this shape once the symbol stands for
/// `s`: the product of what the dimensions denote; with `skip_infer` the slots
/// that ask for the left-over volume are left out.
pub open spec fn spec_extent(dims: Seq<SymDim>, skip_infer: bool, s: int) -> int
    decreases dims.len(),
{
    if dims.len() == 0 {
        1
    } else if skip_infer && dims.last() == infer_mark() {
        spec_extent(dims.drop_last(), skip_infer, s)
    } else {
        spec_extent(dims.drop_last(), skip_infer, s) * dims.last().value_at(s)
    }
}

/// Where the product of the dimensions has coefficients that fit, it denotes
/// the number of elements.
pub proof fn lemma_volume_is_extent(dims: Seq<SymDim>, skip_infer: bool, s: int)
    requires
        spec_volume(dims, skip_infer) is Ok,
    ensures
        spec_volume(dims, skip_infer)->Ok_0.value_at(s) == spec_extent(dims, skip_infer, s),
    decreases dims.len(),
{
    if dims.len() > 0 {
        lemma_volume_is_extent(dims.drop_last(), skip_infer, s);
        if !(skip_infer && dims.last() == infer_mark()) {
            lemma_mul_is_sound(spec_volume(dims.drop_last(), skip_infer)->Ok_0, dims.last(), s);
        }
    } else {
        assert(0 * s == 0);
    }
}

/// The search passes over no slot that asks for the left-over volume.
pub proof fn lemma_find_infer_skips(shape: Seq<SymDim>, from: int)
    requires
        0 <= from,
    ensures
        forall|j: int| from <= j < spec_find_infer(shape, from) ==> #[trigger] shape[j] != infer_mark(),
        spec_find_infer(shape, from) <= shape.len(),
    decreases shape.len() - from,
{
    if from < shape.len() && shape[from] != infer_mark() {
        lemma_find_infer_skips(shape, from + 1);
    }
}

/// Leaving out slots that are not there changes nothing.
pub proof fn lemma_extent_without_infer(dims: Seq<SymDim>, s: int)
    requires
        forall|j: int| 0 <= j < dims.len() ==> #[trigger] dims[j] != infer_mark(),
    ensures
        spec_extent(dims, true, s) == spec_extent(dims, false, s),
    decreases dims.len(),
{
    if dims.len() > 0 {
        assert(dims[dims.len() - 1] != infer_mark());
        lemma_extent_without_infer(dims.drop_last(), s);
    }
}

/// With `q` in the one slot that asked for the left-over volume, the shape has
/// `q` times the elements of the other slots.
pub proof fn lemma_extent_with_infer_filled(shape: Seq<SymDim>, at: int, q: SymDim, s: int)
    requires
        0 <= at < shape.len(),
        forall|j: int| 0 <= j < shape.len() && j != at ==> #[trigger] shape[j] != infer_mark(),
        shape[at] == infer_mark(),
    ensures
        spec_extent(shape.update(at, q), false, s) == spec_extent(shape, true, s) * q.value_at(s),
    decreases shape.len(),
{
    let filled = shape.update(at, q);
    let front = shape.drop_last();
    if at == shape.len() - 1 {
        assert(filled.drop_last() =~= front);
        assert forall|j: int| 0 <= j < front.len() implies #[trigger] front[j] != infer_mark() by {
            assert(shape[j] != infer_mark());
        }
        lemma_extent_without_infer(front, s);
    } else {
        assert(filled.drop_last() =~= front.update(at, q));
        assert(filled.last() == shape.last());
        assert(shape[shape.len() - 1] != infer_mark());
        assert forall|j: int| 0 <= j < front.len() && j != at implies #[trigger] front[j]
            != infer_mark() by {
            assert(shape[j] != infer_mark());
        }
        lemma_extent_with_infer_filled(front, at, q, s);
        let a = spec_extent(front, true, s);
        let v = q.value_at(s);
        let l = shape.last().value_at(s);
        assert((a * v) * l == (a * l) * v) by (nonlinear_arith);
    }
}

/// Filling the slot that asks for the left-over volume keeps the number of
/// elements: the result has as many as the input, whatever the symbol stands
/// for.
pub proof fn lemma_fill_infer_keeps_count(input: Seq<SymDim>, shape: Seq<SymDim>, s: int)
    requires
        spec_fill_infer(input, shape) is Ok,
        spec_find_infer(shape, 0) < shape.len(),
    ensures
        spec_extent(spec_fill_infer(input, shape)->Ok_0, false, s) == spec_extent(input, false, s),
{
    let at = spec_find_infer(shape, 0);
    lemma_find_infer_is_mark(shape, 0);
    lemma_find_infer_skips(shape, 0);
    lemma_find_infer_skips(shape, at + 1);
    let input_vol = spec_volume(input, false)->Ok_0;
    let shape_vol = spec_volume(shape, true)->Ok_0;
    let (q, r) = input_vol.spec_div(shape_vol)->Ok_0;
    lemma_volume_is_extent(input, false, s);
    lemma_volume_is_extent(shape, true, s);
    lemma_div_is_sound(input_vol, shape_vol, s);
    lemma_extent_with_infer_filled(shape, at, q, s);
    let a = spec_extent(shape, true, s);
    let v = q.value_at(s);
    assert(a * v == v * a) by (nonlinear_arith);
}

/// Element-count conservation: where the target has a slot -1 and the reshape
/// succeeds, the output shape has as many elements as the input shape, whatever
/// the symbol stands for.
pub proof fn lemma_compute_shape_keeps_count(input: Seq<SymDim>, shape_spec: Seq<SymDim>, s: int)
    requires
        spec_compute_shape(input, shape_spec) is Ok,
        spec_find_infer(shape_spec, 0) < shape_spec.len(),
    ensures
        spec_extent(spec_compute_shape(input, shape_spec)->Ok_0, false, s) == spec_extent(
            input,
            false,
            s,
        ),
{
    let n = shape_spec.len() as int;
    let j = spec_find_infer(shape_spec, 0);
    lemma_find_infer_is_mark(shape_spec, 0);
    let front = spec_zero_pass(input, shape_spec, 0, 0, unit())->Ok_0;
    lemma_zero_pass_keeps(input, shape_spec, 0, 0, unit());
    let back = spec_zero_pass(input.reverse(), front.reverse(), 0, 0, unit())->Ok_0;
    lemma_zero_pass_keeps(input.reverse(), front.reverse(), 0, 0, unit());
    let done = back.reverse();
    assert(front[j] == infer_mark());
    assert(front.reverse()[n - 1 - j] == front[j]);
    assert(back[n - 1 - j] == infer_mark());
    assert(done[j] == infer_mark());
    lemma_find_infer_skips(done, 0);
    lemma_fill_infer_keeps_count(input, done, s);
}

/// A tensor of shape `[S, n]` reshaped to `[-1, n]` keeps its shape, for the
/// symbol `S` and every literal `n` but 0 and -1: the slot -1 gets the input
/// volume `S * n` divided by `n`, which is `S` with nothing left over.
pub proof fn lemma_infer_slot_gets_symbol(n: i64)
    requires
        n != 0,
        n != -1,
    ensures
        spec_compute_shape(
            seq![SymDim::sym(), SymDim::lit(n as int)],
            seq![infer_mark(), SymDim::lit(n as int)],
        ) == Ok::<Seq<SymDim>, ShapeError>(seq![SymDim::sym(), SymDim::lit(n as int)]),
{
    let sym = SymDim::sym();
    let lit = SymDim::lit(n as int);
    let input = seq![sym, lit];
    let target = seq![infer_mark(), lit];
    let none = Seq::<SymDim>::empty();
    assert(input[0] == sym && input[1] == lit && target[0] == infer_mark() && target[1] == lit);
    // the scan from the front stops at once
    assert(spec_zero_pass(input, target, 0, 0, unit()) == Ok::<Seq<SymDim>, ShapeError>(target));
    // the scan from the back gives `n` its input dimension and stops
    let rev_in = input.reverse();
    let rev = target.reverse();
    assert(rev_in =~= seq![lit, sym]);
    assert(rev =~= seq![lit, infer_mark()]);
    assert(rev_in[0] == lit && rev[0] == lit && rev[1] == infer_mark());
    lemma_unit_facts(lit);
    lemma_unit_facts(unit());
    assert(rev.update(0, lit) =~= rev);
    assert(lit != copy_mark() && lit != infer_mark());
    assert(spec_zero_pass(rev_in, rev, 1, 0, unit()) == Ok::<Seq<SymDim>, ShapeError>(rev));
    assert(spec_zero_pass(rev_in, rev, 1, 1, unit()) == Ok::<Seq<SymDim>, ShapeError>(rev));
    if lit == unit() {
        assert(spec_absorb(rev_in, 0, unit(), lit) == Ok::<(SymDim, int), ShapeError>((unit(), 0)));
        assert(unit().spec_div(lit) == Ok::<(SymDim, i64), ShapeError>((unit(), 0i64)));
    } else {
        assert(spec_absorb(rev_in, 1, lit, lit) == Ok::<(SymDim, int), ShapeError>((lit, 1)));
        assert(spec_absorb(rev_in, 0, unit(), lit) == Ok::<(SymDim, int), ShapeError>((lit, 1)));
        assert(lit.spec_div(lit) == Ok::<(SymDim, i64), ShapeError>((unit(), 0i64)));
    }
    assert(spec_zero_pass(rev_in, rev, 0, 0, unit()) == Ok::<Seq<SymDim>, ShapeError>(rev));
    assert(rev.reverse() =~= target);
    // the one slot -1 gets the quotient of the volumes
    assert(spec_find_infer(target, 2) == 2);
    assert(spec_find_infer(target, 1) == 2);
    assert(spec_find_infer(target, 0) == 0);
    let product = SymDim { constant: 0, coeff: n };
    lemma_unit_facts(sym);
    lemma_div_undoes_mul(n);
    assert(input.drop_last() =~= seq![sym]);
    assert(seq![sym].drop_last() =~= none);
    assert(spec_volume(none, false) == Ok::<SymDim, ShapeError>(unit()));
    assert(spec_volume(seq![sym], false) == Ok::<SymDim, ShapeError>(sym));
    assert(spec_volume(input, false) == Ok::<SymDim, ShapeError>(product));
    assert(target.drop_last() =~= seq![infer_mark()]);
    assert(seq![infer_mark()].drop_last() =~= none);
    assert(spec_volume(none, true) == Ok::<SymDim, ShapeError>(unit()));
    assert(spec_volume(seq![infer_mark()], true) == Ok::<SymDim, ShapeError>(unit()));
    assert(spec_volume(target, true) == Ok::<SymDim, ShapeError>(lit));
    assert(target.update(0, sym) =~= input);
    assert(spec_fill_infer(input, target) == Ok::<Seq<SymDim>, ShapeError>(input));
}

} // verus!
