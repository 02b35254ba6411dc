use shape_inference::dim::SymDim;
use shape_inference::error::ShapeError;
use shape_inference::fact::{
    all_known, copy_of, known_dims, same_elements, same_sizes, unify_dims, DatumType, PartialFact,
    ResolvedFact, Tensor,
};

fn d(v: i64) -> Option<SymDim> {
    Some(SymDim::from_integer(v))
}

fn fact(t: Option<DatumType>, shape: Option<Vec<Option<SymDim>>>) -> PartialFact {
    PartialFact { datum_type: t, shape, value: None }
}

fn tensor(shape: &[u64], data: &[i64]) -> Tensor {
    Tensor { shape: shape.to_vec(), data: data.to_vec() }
}

#[test]
fn unify_with_itself_is_itself() {
    let facts = [
        PartialFact::unknown(),
        fact(Some(DatumType::F32), None),
        fact(None, Some(vec![d(2), None, Some(SymDim::symbol())])),
        PartialFact { datum_type: Some(DatumType::I64), shape: Some(vec![d(2)]), value: Some(tensor(&[2], &[7, 8])) },
    ];
    for f in facts.iter() {
        assert_eq!(f.unify(f), Ok(f.clone()));
    }
}

#[test]
fn unify_is_commutative() {
    let a = fact(Some(DatumType::F32), Some(vec![d(2), None, None]));
    let b = fact(None, Some(vec![None, d(3), None]));
    let c = fact(Some(DatumType::I32), None);
    let d4 = fact(None, Some(vec![d(2), d(4)]));
    let all = [a, b, c, d4];
    for x in all.iter() {
        for y in all.iter() {
            assert_eq!(x.unify(y), y.unify(x));
        }
    }
}

#[test]
fn unify_takes_what_either_side_knows() {
    let a = fact(Some(DatumType::F32), Some(vec![d(2), None, None]));
    let b = PartialFact { datum_type: None, shape: Some(vec![None, d(3), None]), value: Some(tensor(&[1], &[5])) };
    let expected = PartialFact {
        datum_type: Some(DatumType::F32),
        shape: Some(vec![d(2), d(3), None]),
        value: Some(tensor(&[1], &[5])),
    };
    assert_eq!(a.unify(&b), Ok(expected));
}

#[test]
fn unify_reports_each_kind_of_contradiction() {
    let t1 = fact(Some(DatumType::F32), None);
    let t2 = fact(Some(DatumType::I32), None);
    assert_eq!(t1.unify(&t2), Err(ShapeError::Contradiction));
    let r1 = fact(None, Some(vec![None, None]));
    let r2 = fact(None, Some(vec![None]));
    assert_eq!(r1.unify(&r2), Err(ShapeError::Contradiction));
    let d1 = fact(None, Some(vec![d(2), None]));
    let d2 = fact(None, Some(vec![d(3), None]));
    assert_eq!(d1.unify(&d2), Err(ShapeError::Contradiction));
    let v1 = PartialFact { datum_type: None, shape: None, value: Some(tensor(&[1], &[5])) };
    let v2 = PartialFact { datum_type: None, shape: None, value: Some(tensor(&[1], &[6])) };
    assert_eq!(v1.unify(&v2), Err(ShapeError::Contradiction));
}

#[test]
fn unify_never_changes_a_known_property() {
    let a = fact(Some(DatumType::F32), Some(vec![d(2), None]));
    let b = fact(None, Some(vec![None, d(9)]));
    let u = a.unify(&b).unwrap();
    assert_eq!(u.datum_type, a.datum_type);
    assert_eq!(u.shape.as_ref().unwrap()[0], d(2));
    assert_eq!(u.shape.as_ref().unwrap()[1], d(9));
    assert_eq!(u.unify(&a), Ok(u.clone()));
    assert_eq!(u.unify(&b), Ok(u.clone()));
}

#[test]
fn try_resolve_needs_type_rank_and_every_dimension() {
    assert_eq!(PartialFact::unknown().try_resolve(), None);
    assert_eq!(fact(Some(DatumType::F32), None).try_resolve(), None);
    assert_eq!(fact(None, Some(vec![d(1)])).try_resolve(), None);
    assert_eq!(fact(Some(DatumType::F32), Some(vec![d(1), None])).try_resolve(), None);
    let s = SymDim::symbol();
    assert_eq!(
        fact(Some(DatumType::F32), Some(vec![d(1), Some(s)])).try_resolve(),
        Some(ResolvedFact { datum_type: DatumType::F32, shape: vec![SymDim::from_integer(1), s], value: None })
    );
    let with_value = PartialFact { datum_type: Some(DatumType::I64), shape: Some(vec![d(2)]), value: Some(tensor(&[2], &[7, 8])) };
    assert_eq!(
        with_value.try_resolve(),
        Some(ResolvedFact { datum_type: DatumType::I64, shape: vec![SymDim::from_integer(2)], value: Some(tensor(&[2], &[7, 8])) })
    );
}

#[test]
fn helpers_on_lists() {
    assert_eq!(copy_of(&vec![1u8, 2, 3]), vec![1u8, 2, 3]);
    assert!(same_sizes(&vec![1, 2], &vec![1, 2]));
    assert!(!same_sizes(&vec![1, 2], &vec![1, 3]));
    assert!(!same_sizes(&vec![1, 2], &vec![1]));
    assert!(same_elements(&vec![-1, 2], &vec![-1, 2]));
    assert!(!same_elements(&vec![-1, 2], &vec![2, -1]));
    assert_eq!(known_dims(&vec![d(1), d(2)]), Some(vec![SymDim::from_integer(1), SymDim::from_integer(2)]));
    assert_eq!(known_dims(&vec![d(1), None]), None);
    assert_eq!(all_known(&vec![SymDim::from_integer(1)]), vec![d(1)]);
    assert_eq!(unify_dims(&vec![d(1), None], &vec![None, d(2)]), Ok(vec![d(1), d(2)]));
    assert!(tensor(&[2], &[1, 2]).same_as(&tensor(&[2], &[1, 2]).copy()));
    assert!(!tensor(&[2], &[1, 2]).same_as(&tensor(&[1, 2], &[1, 2])));
}
