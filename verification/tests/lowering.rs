use shape_inference::collect::{collect, offsets_of, outlet_at, rules_of, table_of, Operator};
use shape_inference::dim::SymDim;
use shape_inference::error::{Field, InferenceError, ShapeError};
use shape_inference::fact::{DatumType, PartialFact, ResolvedFact, Tensor};
use shape_inference::graph::{Graph, Node, OutletRef};
use shape_inference::lower::{copy_resolved, infer_and_lower, TypedOperator};
use shape_inference::op::TypedReshape;
use shape_inference::solver::Rule;

fn d(v: i64) -> SymDim {
    SymDim::from_integer(v)
}

fn at(node: usize, slot: usize) -> OutletRef {
    OutletRef { node, slot }
}

fn source(t: DatumType, shape: Vec<SymDim>) -> PartialFact {
    PartialFact { datum_type: Some(t), shape: Some(shape.into_iter().map(Some).collect()), value: None }
}

fn constant(values: &[i64]) -> PartialFact {
    PartialFact {
        datum_type: Some(DatumType::I64),
        shape: Some(vec![Some(d(values.len() as i64))]),
        value: Some(Tensor { shape: vec![values.len() as u64], data: values.to_vec() }),
    }
}

fn resolved(t: DatumType, shape: Vec<SymDim>) -> ResolvedFact {
    ResolvedFact { datum_type: t, shape, value: None }
}

/// A removed node, an input of symbolic batch size, a constant target and a
/// reshape of the one by the other.
fn sample() -> Graph<PartialFact, Operator> {
    let mut g: Graph<PartialFact, Operator> = Graph::new();
    g.add_node("gone".to_string(), Operator::Source, vec![], vec![PartialFact::unknown()]).unwrap();
    g.add_node(
        "input".to_string(),
        Operator::Source,
        vec![],
        vec![source(DatumType::F32, vec![SymDim::symbol(), d(1), d(2), d(128)])],
    )
    .unwrap();
    g.add_node("target".to_string(), Operator::Source, vec![], vec![constant(&[0, 0, -1])]).unwrap();
    g.add_node("reshape".to_string(), Operator::Reshape, vec![at(1, 0), at(2, 0)], vec![PartialFact::unknown()])
        .unwrap();
    g.remove_node(0).unwrap();
    g.set_inputs(vec![at(1, 0)]).unwrap();
    g.set_outputs(vec![at(3, 0)]).unwrap();
    g
}

#[test]
fn collect_numbers_the_outlets_of_live_nodes() {
    let g = sample();
    assert_eq!(offsets_of(&g), Ok(vec![0, 0, 1, 2, 3]));
    let (rules, table) = collect(&g).unwrap();
    assert_eq!(rules, vec![Rule::Reshape { input: 0, shape: 1, output: 2 }]);
    assert_eq!(table.len(), 3);
    assert_eq!(table[1], constant(&[0, 0, -1]));
    assert_eq!(table_of(&g), table);
    assert_eq!(rules_of(&g, &vec![0, 0, 1, 2, 3]), Ok(rules));
}

#[test]
fn collect_rejects_a_reshape_of_wrong_arity() {
    let mut g: Graph<PartialFact, Operator> = Graph::new();
    g.add_node("input".to_string(), Operator::Source, vec![], vec![PartialFact::unknown()]).unwrap();
    g.add_node("reshape".to_string(), Operator::Reshape, vec![at(0, 0)], vec![PartialFact::unknown()]).unwrap();
    assert_eq!(collect(&g).map(|_| ()), Err(ShapeError::InvalidReshape));
    assert_eq!(infer_and_lower(&g).map(|_| ()), Err(InferenceError::Rule(ShapeError::InvalidReshape)));
}

#[test]
fn infer_and_lower_keeps_ids_names_and_wiring() {
    let g = sample();
    let (t, facts) = infer_and_lower(&g).unwrap();
    let out_shape = vec![SymDim::symbol(), d(1), d(256)];
    assert_eq!(facts.len(), 3);
    assert_eq!(facts[2], resolved(DatumType::F32, out_shape.clone()));
    assert_eq!(t.id_count(), 4);
    assert_eq!(t.node(0), None);
    assert_eq!(
        t.node(1),
        Some(&Node {
            id: 1,
            name: "input".to_string(),
            op: TypedOperator::Source,
            inputs: vec![],
            outputs: vec![resolved(DatumType::F32, vec![SymDim::symbol(), d(1), d(2), d(128)])],
        })
    );
    assert_eq!(
        t.node(3),
        Some(&Node {
            id: 3,
            name: "reshape".to_string(),
            op: TypedOperator::Reshape(TypedReshape { shape: out_shape.clone() }),
            inputs: vec![at(1, 0)],
            outputs: vec![resolved(DatumType::F32, out_shape)],
        })
    );
    assert_eq!(t.inputs, vec![at(1, 0)]);
    assert_eq!(t.outputs, vec![at(3, 0)]);
    assert_eq!(copy_resolved(&facts[1]), facts[1]);
}

#[test]
fn infer_and_lower_twice_gives_identical_graphs() {
    let g = sample();
    assert_eq!(infer_and_lower(&g), infer_and_lower(&g));
}

#[test]
fn infer_and_lower_with_variable_shape_fails() {
    let mut g: Graph<PartialFact, Operator> = Graph::new();
    g.add_node("input".to_string(), Operator::Source, vec![], vec![source(DatumType::F32, vec![d(3), d(4)])]).unwrap();
    g.add_node("target".to_string(), Operator::Source, vec![], vec![source(DatumType::I64, vec![d(1)])]).unwrap();
    g.add_node(
        "reshape".to_string(),
        Operator::Reshape,
        vec![at(0, 0), at(1, 0)],
        vec![source(DatumType::F32, vec![d(12)])],
    )
    .unwrap();
    assert_eq!(infer_and_lower(&g).map(|_| ()), Err(InferenceError::Rule(ShapeError::VariableShape)));
}

#[test]
fn infer_and_lower_names_what_stays_unknown() {
    let mut g: Graph<PartialFact, Operator> = Graph::new();
    g.add_node("input".to_string(), Operator::Source, vec![], vec![source(DatumType::F32, vec![d(3), d(4)])]).unwrap();
    g.add_node("target".to_string(), Operator::Source, vec![], vec![source(DatumType::I64, vec![d(1)])]).unwrap();
    g.add_node("reshape".to_string(), Operator::Reshape, vec![at(0, 0), at(1, 0)], vec![PartialFact::unknown()])
        .unwrap();
    assert_eq!(
        infer_and_lower(&g).map(|_| ()),
        Err(InferenceError::UnderConstrained { place: 2, field: Field::Rank })
    );
}

#[test]
fn infer_and_lower_reports_invalid_reshape_and_contradiction() {
    let mut g: Graph<PartialFact, Operator> = Graph::new();
    g.add_node("input".to_string(), Operator::Source, vec![], vec![source(DatumType::F32, vec![d(3), d(4), d(5)])])
        .unwrap();
    g.add_node("target".to_string(), Operator::Source, vec![], vec![constant(&[100])]).unwrap();
    g.add_node("reshape".to_string(), Operator::Reshape, vec![at(0, 0), at(1, 0)], vec![PartialFact::unknown()])
        .unwrap();
    assert_eq!(infer_and_lower(&g).map(|_| ()), Err(InferenceError::Rule(ShapeError::InvalidReshape)));

    let mut h: Graph<PartialFact, Operator> = Graph::new();
    h.add_node("input".to_string(), Operator::Source, vec![], vec![source(DatumType::F32, vec![d(3), d(4)])]).unwrap();
    h.add_node("target".to_string(), Operator::Source, vec![], vec![constant(&[-1])]).unwrap();
    h.add_node(
        "reshape".to_string(),
        Operator::Reshape,
        vec![at(0, 0), at(1, 0)],
        vec![source(DatumType::F32, vec![d(13)])],
    )
    .unwrap();
    assert_eq!(infer_and_lower(&h).map(|_| ()), Err(InferenceError::Rule(ShapeError::Contradiction)));
}

#[test]
fn outlet_at_names_the_node_of_a_place() {
    let mut g: Graph<PartialFact, Operator> = Graph::new();
    g.add_node("a".to_string(), Operator::Source, vec![], vec![PartialFact::unknown(), PartialFact::unknown()])
        .unwrap();
    g.add_node("b".to_string(), Operator::Source, vec![], vec![]).unwrap();
    g.add_node("c".to_string(), Operator::Source, vec![], vec![PartialFact::unknown()]).unwrap();
    assert_eq!(outlet_at(&g, 0), Some(at(0, 0)));
    assert_eq!(outlet_at(&g, 1), Some(at(0, 1)));
    assert_eq!(outlet_at(&g, 2), Some(at(2, 0)));
    assert_eq!(outlet_at(&g, 3), None);
}
