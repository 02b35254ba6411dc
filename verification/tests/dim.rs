use shape_inference::dim::SymDim;
use shape_inference::error::ShapeError;

fn lin(constant: i64, coeff: i64) -> SymDim {
    SymDim { constant, coeff }
}

#[test]
fn add_of_integers_is_their_sum() {
    let r = SymDim::from_integer(20).add(&SymDim::from_integer(22));
    assert_eq!(r.to_integer(), Ok(42));
}

#[test]
fn add_keeps_both_parts() {
    assert_eq!(lin(1, 2).add(&lin(10, -5)), lin(11, -3));
    assert_eq!(lin(1, 2).checked_add(&lin(10, -5)), Ok(lin(11, -3)));
    assert_eq!(lin(i64::MAX, 0).checked_add(&lin(1, 0)), Err(ShapeError::Overflow));
}

#[test]
fn symbol_times_integer_divided_by_it_is_symbol() {
    for n in [1i64, 2, -1, -7, 128, i64::MAX, i64::MIN] {
        let p = SymDim::symbol().mul(&SymDim::from_integer(n)).unwrap();
        assert_eq!(p, lin(0, n));
        assert_eq!(p.maybe_div(&SymDim::from_integer(n)), Ok((SymDim::symbol(), 0)));
    }
}

#[test]
fn to_integer_of_symbolic_fails() {
    assert_eq!(SymDim::symbol().to_integer(), Err(ShapeError::StillSymbolic));
    assert_eq!(lin(3, -2).to_integer(), Err(ShapeError::StillSymbolic));
    assert_eq!(lin(3, 0).to_integer(), Ok(3));
    assert!(lin(3, 0).is_integer());
    assert!(!lin(3, 1).is_integer());
}

#[test]
fn mul_of_two_symbolic_is_non_polynomial() {
    assert_eq!(SymDim::symbol().mul(&lin(1, 1)), Err(ShapeError::NonPolynomial));
}

#[test]
fn mul_distributes_over_the_symbol() {
    assert_eq!(lin(2, 3).mul(&lin(5, 0)), Ok(lin(10, 15)));
    assert_eq!(lin(5, 0).mul(&lin(2, 3)), Ok(lin(10, 15)));
    assert_eq!(lin(i64::MAX, 0).mul(&lin(2, 0)), Err(ShapeError::Overflow));
}

#[test]
fn div_by_integer_gives_quotient_and_remainder() {
    assert_eq!(lin(60, 0).maybe_div(&lin(15, 0)), Ok((lin(4, 0), 0)));
    assert_eq!(lin(60, 0).maybe_div(&lin(100, 0)), Ok((lin(0, 0), 60)));
    assert_eq!(lin(7, 4).maybe_div(&lin(2, 0)), Ok((lin(3, 2), 1)));
    assert_eq!(lin(-7, 0).maybe_div(&lin(2, 0)), Ok((lin(-4, 0), 1)));
    assert_eq!(lin(7, 0).maybe_div(&lin(-2, 0)), Ok((lin(-3, 0), 1)));
    assert_eq!(lin(7, 3).maybe_div(&lin(2, 0)), Err(ShapeError::NonPolynomial));
    assert_eq!(lin(7, 3).maybe_div(&lin(0, 0)), Err(ShapeError::DivisionByZero));
    assert_eq!(lin(i64::MIN, 0).maybe_div(&lin(-1, 0)), Err(ShapeError::Overflow));
}

#[test]
fn div_by_symbolic_needs_an_exact_multiple() {
    assert_eq!(lin(0, 256).maybe_div(&lin(0, 1)), Ok((lin(256, 0), 0)));
    assert_eq!(lin(6, 4).maybe_div(&lin(3, 2)), Ok((lin(2, 0), 0)));
    assert_eq!(lin(0, 0).maybe_div(&lin(3, 2)), Ok((lin(0, 0), 0)));
    assert_eq!(lin(1, 0).maybe_div(&lin(0, 1)), Err(ShapeError::NonPolynomial));
    assert_eq!(lin(6, 5).maybe_div(&lin(3, 2)), Err(ShapeError::NonPolynomial));
    assert_eq!(lin(0, i64::MIN).maybe_div(&lin(0, -1)), Err(ShapeError::Overflow));
}
