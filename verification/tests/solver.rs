use shape_inference::dim::SymDim;
use shape_inference::error::{Field, InferenceError, ShapeError};
use shape_inference::fact::{DatumType, PartialFact, ResolvedFact, Tensor};
use shape_inference::lower::{lower, lower_rule, solve_and_lower};
use shape_inference::op::TypedReshape;
use shape_inference::solver::{
    apply_rule, copy_fact, copy_table, first_gap, pass, resolve_all, same_dims, same_fact,
    same_table, solve, solve_fully, Rule,
};

fn d(v: i64) -> SymDim {
    SymDim::from_integer(v)
}

fn known_shape(vs: &[i64]) -> Option<Vec<Option<SymDim>>> {
    Some(vs.iter().map(|v| Some(d(*v))).collect())
}

fn source(t: DatumType, shape: &[i64]) -> PartialFact {
    PartialFact { datum_type: Some(t), shape: known_shape(shape), value: None }
}

fn constant(values: &[i64]) -> PartialFact {
    PartialFact {
        datum_type: Some(DatumType::I64),
        shape: known_shape(&[values.len() as i64]),
        value: Some(Tensor { shape: vec![values.len() as u64], data: values.to_vec() }),
    }
}

/// input -> reshape(-1, 5) -> reshape(0, 5, -1), with a copy of the last fact.
fn chain() -> (Vec<Rule>, Vec<PartialFact>) {
    let rules = vec![
        Rule::Equals { a: 4, b: 5 },
        Rule::Reshape { input: 2, shape: 3, output: 4 },
        Rule::Reshape { input: 0, shape: 1, output: 2 },
    ];
    let table = vec![
        source(DatumType::F32, &[3, 4, 5]),
        constant(&[-1, 5]),
        PartialFact::unknown(),
        constant(&[0, 5, -1]),
        PartialFact::unknown(),
        PartialFact::unknown(),
    ];
    (rules, table)
}

#[test]
fn solve_reaches_the_fixpoint_of_a_chain() {
    let (rules, table) = chain();
    let solved = solve(&rules, table).unwrap();
    assert_eq!(solved[2], source(DatumType::F32, &[12, 5]));
    assert_eq!(solved[4], source(DatumType::F32, &[12, 5, 1]));
    assert_eq!(solved[5], solved[4]);
    assert_eq!(pass(&rules, copy_table(&solved)), Ok(copy_table(&solved)));
}

#[test]
fn passes_only_add_knowledge() {
    let (rules, table) = chain();
    let mut current = table;
    for _ in 0..4 {
        let next = pass(&rules, copy_table(&current)).unwrap();
        for (before, after) in current.iter().zip(next.iter()) {
            assert_eq!(after.unify(before), Ok(copy_fact(after)));
        }
        current = next;
    }
}

#[test]
fn one_pass_in_rule_order() {
    let (rules, table) = chain();
    let once = pass(&rules, table).unwrap();
    assert_eq!(once[2], source(DatumType::F32, &[12, 5]));
    assert_eq!(once[4], PartialFact::unknown());
}

#[test]
fn solve_reports_a_contradiction() {
    let rules = vec![Rule::Equals { a: 0, b: 1 }];
    let table = vec![source(DatumType::F32, &[2]), source(DatumType::F32, &[3])];
    assert_eq!(solve(&rules, table), Err(ShapeError::Contradiction));
}

#[test]
fn solve_reports_an_invalid_reshape() {
    let rules = vec![Rule::Reshape { input: 0, shape: 1, output: 2 }];
    let table = vec![source(DatumType::F32, &[3, 4, 5]), constant(&[100]), PartialFact::unknown()];
    assert_eq!(solve(&rules, table), Err(ShapeError::InvalidReshape));
}

#[test]
fn rule_outside_the_table_dangles() {
    let table = vec![PartialFact::unknown()];
    assert_eq!(apply_rule(Rule::Equals { a: 0, b: 1 }, copy_table(&table)), Err(ShapeError::DanglingReference));
    assert_eq!(
        apply_rule(Rule::Reshape { input: 0, shape: 0, output: 7 }, table),
        Err(ShapeError::DanglingReference)
    );
}

#[test]
fn equals_copies_knowledge_both_ways() {
    let a = PartialFact { datum_type: Some(DatumType::U8), shape: None, value: None };
    let b = PartialFact { datum_type: None, shape: known_shape(&[2]), value: None };
    let out = apply_rule(Rule::Equals { a: 0, b: 1 }, vec![a, b]).unwrap();
    assert_eq!(out[0], source(DatumType::U8, &[2]));
    assert_eq!(out[1], source(DatumType::U8, &[2]));
}

#[test]
fn solve_fully_names_the_first_gap() {
    let rules = vec![Rule::Reshape { input: 0, shape: 1, output: 2 }];
    let table = vec![
        source(DatumType::F32, &[3, 4]),
        PartialFact { datum_type: Some(DatumType::I64), shape: known_shape(&[1]), value: None },
        PartialFact::unknown(),
    ];
    assert_eq!(
        solve_fully(&rules, table),
        Err(InferenceError::UnderConstrained { place: 2, field: Field::Rank })
    );
}

#[test]
fn first_gap_goes_type_rank_dimension() {
    assert_eq!(first_gap(&PartialFact::unknown()), Some(Field::DatumType));
    let typed = PartialFact { datum_type: Some(DatumType::F32), shape: None, value: None };
    assert_eq!(first_gap(&typed), Some(Field::Rank));
    let holes = PartialFact { datum_type: Some(DatumType::F32), shape: Some(vec![Some(d(1)), None, None]), value: None };
    assert_eq!(first_gap(&holes), Some(Field::Dim(1)));
    assert_eq!(first_gap(&source(DatumType::F32, &[1, 2])), None);
    assert_eq!(
        resolve_all(&vec![source(DatumType::F32, &[1]), holes]),
        Err(InferenceError::UnderConstrained { place: 1, field: Field::Dim(1) })
    );
}

#[test]
fn infer_and_lower_gives_facts_and_operators() {
    let (rules, table) = chain();
    let (facts, ops) = solve_and_lower(&rules, table).unwrap();
    assert_eq!(facts.len(), 6);
    assert_eq!(facts[4], ResolvedFact { datum_type: DatumType::F32, shape: vec![d(12), d(5), d(1)], value: None });
    assert_eq!(
        ops,
        vec![
            None,
            Some(TypedReshape { shape: vec![d(12), d(5), d(1)] }),
            Some(TypedReshape { shape: vec![d(12), d(5)] }),
        ]
    );
}

#[test]
fn lowering_twice_gives_the_same() {
    let (rules, table) = chain();
    let first = solve_and_lower(&rules, copy_table(&table));
    let second = solve_and_lower(&rules, table);
    assert_eq!(first, second);
}

#[test]
fn lowering_needs_a_constant_target() {
    let facts = vec![
        ResolvedFact { datum_type: DatumType::F32, shape: vec![d(3), d(4)], value: None },
        ResolvedFact { datum_type: DatumType::I64, shape: vec![d(1)], value: None },
        ResolvedFact { datum_type: DatumType::F32, shape: vec![d(12)], value: None },
    ];
    let rule = Rule::Reshape { input: 0, shape: 1, output: 2 };
    assert_eq!(lower_rule(rule, &facts), Err(ShapeError::VariableShape));
    assert_eq!(lower(&vec![Rule::Equals { a: 0, b: 0 }, rule], &facts), Err(ShapeError::VariableShape));
    assert_eq!(lower_rule(Rule::Equals { a: 0, b: 2 }, &facts), Ok(None));
    assert_eq!(
        lower_rule(Rule::Reshape { input: 5, shape: 1, output: 2 }, &facts),
        Err(ShapeError::DanglingReference)
    );
}

#[test]
fn infer_and_lower_with_variable_target_fails() {
    let rules = vec![Rule::Reshape { input: 0, shape: 1, output: 2 }];
    let table = vec![
        source(DatumType::F32, &[3, 4]),
        source(DatumType::I64, &[1]),
        source(DatumType::F32, &[12]),
    ];
    assert_eq!(solve_and_lower(&rules, table), Err(InferenceError::Rule(ShapeError::VariableShape)));
}

#[test]
fn comparisons_of_facts_and_tables() {
    let a = source(DatumType::F32, &[1, 2]);
    let b = source(DatumType::F32, &[1, 3]);
    assert!(same_fact(&a, &copy_fact(&a)));
    assert!(!same_fact(&a, &b));
    assert!(!same_fact(&a, &PartialFact::unknown()));
    assert!(same_dims(&vec![Some(d(1)), None], &vec![Some(d(1)), None]));
    assert!(!same_dims(&vec![Some(d(1)), None], &vec![Some(d(1)), Some(d(2))]));
    assert!(same_table(&vec![copy_fact(&a)], &vec![copy_fact(&a)]));
    assert!(!same_table(&vec![copy_fact(&a)], &vec![b]));
    assert!(!same_table(&vec![copy_fact(&a)], &vec![]));
}
