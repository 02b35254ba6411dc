use shape_inference::dim::SymDim;
use shape_inference::error::ShapeError;
use shape_inference::reshape::{compute_shape, deal_with_zero, fill_infer, find_infer, reversed, volume};

fn d(v: i64) -> SymDim {
    SymDim::from_integer(v)
}

fn dims(vs: &[i64]) -> Vec<SymDim> {
    vs.iter().map(|v| d(*v)).collect()
}

#[test]
fn reshape_invalid() {
    assert!(compute_shape(&dims(&[3, 4, 5]), &dims(&[100])).is_err());
}

#[test]
fn reshape_with_leading_zero() {
    assert_eq!(compute_shape(&dims(&[3, 4, 5]), &dims(&[0, 0, 5])).unwrap(), dims(&[3, 4, 5]))
}

#[test]
fn reshape_with_leading_zero_with_flatten() {
    assert_eq!(compute_shape(&dims(&[2, 3, 5, 7]), &dims(&[2, 0, 35])).unwrap(), dims(&[2, 3, 35]))
}

#[test]
fn reshape_with_trailing_zero() {
    assert_eq!(compute_shape(&dims(&[3, 4, 5]), &dims(&[3, -1, 0])).unwrap(), dims(&[3, 4, 5]))
}

#[test]
fn reshape_bug_1() {
    assert_eq!(
        compute_shape(&[SymDim::symbol(), d(1), d(2), d(128)], &dims(&[0, 0, -1])).unwrap(),
        vec![SymDim::symbol(), d(1), d(256)]
    )
}

#[test]
fn reshape_invalid_is_invalid_reshape() {
    assert_eq!(compute_shape(&dims(&[3, 4, 5]), &dims(&[100])), Err(ShapeError::InvalidReshape));
}

#[test]
fn reshape_by_own_shape_is_identity() {
    for shape in [vec![3, 4, 5], vec![1, 1, 5], vec![2, 1, 3], vec![7], vec![], vec![1], vec![-3, 2]] {
        assert_eq!(compute_shape(&dims(&shape), &dims(&shape)), Ok(dims(&shape)));
    }
}

#[test]
fn reshape_with_two_inferred_slots_is_invalid() {
    assert_eq!(compute_shape(&dims(&[3, 4]), &dims(&[-1, -1])), Err(ShapeError::InvalidReshape));
}

#[test]
fn reshape_zero_without_input_dimension_is_invalid() {
    assert_eq!(compute_shape(&dims(&[]), &dims(&[0])), Err(ShapeError::InvalidReshape));
}

#[test]
fn reshape_zero_while_volume_is_pending_is_invalid() {
    assert_eq!(compute_shape(&dims(&[6, 4]), &dims(&[2, 0])), Err(ShapeError::InvalidReshape));
}

#[test]
fn reshape_inferred_slot_not_exact_is_invalid() {
    assert_eq!(compute_shape(&dims(&[3, 5]), &dims(&[2, -1])), Err(ShapeError::InvalidReshape));
}

#[test]
fn reshape_flatten_everything() {
    assert_eq!(compute_shape(&dims(&[2, 3, 4]), &dims(&[-1])), Ok(dims(&[24])));
}

#[test]
fn reshape_overflowing_volume_is_reported() {
    let big = 1i64 << 40;
    assert_eq!(compute_shape(&dims(&[big, big]), &dims(&[-1])), Err(ShapeError::Overflow));
}

#[test]
fn reshape_two_symbolic_inputs_have_no_volume() {
    let s = SymDim::symbol();
    assert_eq!(compute_shape(&[s, s], &dims(&[-1])), Err(ShapeError::NonPolynomial));
}

#[test]
fn zero_pass_stops_at_inferred_slot() {
    assert_eq!(deal_with_zero(&dims(&[3, 4, 5]), &dims(&[0, -1, 0])), Ok(dims(&[3, -1, 0])));
}

#[test]
fn reversed_reverses() {
    assert_eq!(reversed(&dims(&[1, 2, 3])), dims(&[3, 2, 1]));
    assert_eq!(reversed(&dims(&[])), dims(&[]));
}

#[test]
fn volume_skips_inferred_slots_on_request() {
    assert_eq!(volume(&dims(&[2, -1, 5]), true), Ok(d(10)));
    assert_eq!(volume(&dims(&[2, -1, 5]), false), Ok(d(-10)));
    assert_eq!(volume(&dims(&[]), false), Ok(d(1)));
}

#[test]
fn find_infer_gives_first_position_or_length() {
    assert_eq!(find_infer(&dims(&[2, -1, 5, -1]), 0), 1);
    assert_eq!(find_infer(&dims(&[2, -1, 5, -1]), 2), 3);
    assert_eq!(find_infer(&dims(&[2, 5]), 0), 2);
}

#[test]
fn fill_infer_divides_volumes() {
    assert_eq!(fill_infer(&dims(&[3, 4, 5]), dims(&[3, -1, 5])), Ok(dims(&[3, 4, 5])));
    assert_eq!(fill_infer(&dims(&[3, 4, 5]), dims(&[3, 4, 5])), Ok(dims(&[3, 4, 5])));
    assert_eq!(fill_infer(&dims(&[3, 4, 5]), dims(&[0, -1])), Err(ShapeError::InvalidReshape));
}

#[test]
fn reshape_copies_each_dimension_at_its_own_place() {
    assert_eq!(compute_shape(&dims(&[1, 5]), &dims(&[0, 0])), Ok(dims(&[1, 5])));
    assert_eq!(compute_shape(&dims(&[1, 1, 7]), &dims(&[0, 0, 0])), Ok(dims(&[1, 1, 7])));
    assert_eq!(compute_shape(&dims(&[4, 1, 1, 6]), &dims(&[0, 0, 0, 0])), Ok(dims(&[4, 1, 1, 6])));
    assert_eq!(compute_shape(&dims(&[5, 1]), &dims(&[-1, 0])), Ok(dims(&[5, 1])));
}

#[test]
fn reshape_more_zeros_than_input_dimensions_is_invalid() {
    assert_eq!(compute_shape(&dims(&[1, 1]), &dims(&[0, 0, 0])), Err(ShapeError::InvalidReshape));
    assert_eq!(compute_shape(&dims(&[3]), &dims(&[0, 0])), Err(ShapeError::InvalidReshape));
}

#[test]
fn reshape_inferred_slot_gets_the_symbol_back() {
    for n in [1i64, 2, 7, 128, -3] {
        let input = vec![SymDim::symbol(), d(n)];
        assert_eq!(compute_shape(&input, &dims(&[-1, n])), Ok(input.clone()));
    }
}

#[test]
fn reshape_with_inferred_slot_keeps_the_element_count() {
    let out = compute_shape(&dims(&[2, 3, 4, 5]), &dims(&[0, -1, 10])).unwrap();
    assert_eq!(out, dims(&[2, 6, 10]));
    assert_eq!(volume(&out, false), volume(&dims(&[2, 3, 4, 5]), false));
}
