use shape_inference::error::ShapeError;
use shape_inference::graph::{any_refers_to, map_refs, Graph, Node, OutletRef};

fn at(node: usize, slot: usize) -> OutletRef {
    OutletRef { node, slot }
}

fn sample() -> Graph<u8, char> {
    let mut g: Graph<u8, char> = Graph::new();
    assert_eq!(g.add_node("a".to_string(), 's', vec![], vec![10, 11]), Ok(0));
    assert_eq!(g.add_node("b".to_string(), 's', vec![], vec![20]), Ok(1));
    assert_eq!(g.wire_node("c".to_string(), 'r', vec![at(0, 1), at(1, 0)], vec![30]), Ok(vec![at(2, 0)]));
    g
}

#[test]
fn add_node_gives_ids_in_order() {
    let g = sample();
    assert_eq!(g.id_count(), 3);
    assert_eq!(
        g.node(2),
        Some(&Node { id: 2, name: "c".to_string(), op: 'r', inputs: vec![at(0, 1), at(1, 0)], outputs: vec![30] })
    );
    assert_eq!(g.node(3), None);
}

#[test]
fn add_node_rejects_dangling_inputs() {
    let mut g = sample();
    assert_eq!(g.add_node("d".to_string(), 'r', vec![at(0, 2)], vec![1]), Err(ShapeError::DanglingReference));
    assert_eq!(g.add_node("d".to_string(), 'r', vec![at(3, 0)], vec![1]), Err(ShapeError::DanglingReference));
    assert_eq!(g.wire_node("d".to_string(), 'r', vec![at(9, 0)], vec![1]), Err(ShapeError::DanglingReference));
    assert_eq!(g, sample());
}

#[test]
fn wire_node_gives_every_output() {
    let mut g = sample();
    assert_eq!(
        g.wire_node("d".to_string(), 'x', vec![at(2, 0)], vec![1, 2, 3]),
        Ok(vec![at(3, 0), at(3, 1), at(3, 2)])
    );
    assert_eq!(g.wire_node("e".to_string(), 'x', vec![at(3, 2)], vec![]), Ok(vec![]));
}

#[test]
fn outlet_fact_is_found_by_node_and_slot() {
    let g = sample();
    assert_eq!(g.outlet_fact(at(0, 1)), Some(&11));
    assert_eq!(g.outlet_fact(at(2, 0)), Some(&30));
    assert_eq!(g.outlet_fact(at(2, 1)), None);
    assert_eq!(g.outlet_fact(at(7, 0)), None);
    assert!(g.has_outlet(at(1, 0)));
    assert!(!g.has_outlet(at(1, 1)));
    assert!(g.has_outlets(&vec![at(0, 0), at(2, 0)]));
    assert!(!g.has_outlets(&vec![at(0, 0), at(2, 3)]));
}

#[test]
fn remove_node_with_dependents_fails() {
    let mut g = sample();
    assert!(g.is_used(0));
    assert!(!g.is_used(2));
    assert_eq!(g.remove_node(0), Err(ShapeError::DanglingReference));
    assert_eq!(g, sample());
    assert_eq!(g.remove_node(2), Ok(()));
    assert_eq!(g.node(2), None);
    assert_eq!(g.remove_node(2), Err(ShapeError::DanglingReference));
    assert_eq!(g.remove_node(0), Ok(()));
    assert_eq!(g.remove_node(5), Err(ShapeError::DanglingReference));
}

#[test]
fn ids_are_not_reused_after_removal() {
    let mut g = sample();
    assert_eq!(g.remove_node(2), Ok(()));
    assert_eq!(g.add_node("d".to_string(), 's', vec![], vec![1]), Ok(3));
    assert_eq!(g.add_node("e".to_string(), 's', vec![at(2, 0)], vec![1]), Err(ShapeError::DanglingReference));
}

#[test]
fn designated_outlets_are_checked_and_kept_alive() {
    let mut g = sample();
    assert_eq!(g.set_outputs(vec![at(2, 0)]), Ok(()));
    assert_eq!(g.set_inputs(vec![at(0, 0), at(1, 0)]), Ok(()));
    assert_eq!(g.set_outputs(vec![at(2, 1)]), Err(ShapeError::DanglingReference));
    assert_eq!(g.set_inputs(vec![at(4, 0)]), Err(ShapeError::DanglingReference));
    assert_eq!(g.outputs, vec![at(2, 0)]);
    assert_eq!(g.remove_node(2), Err(ShapeError::DanglingReference));
}

#[test]
fn any_refers_to_looks_at_the_node() {
    assert!(any_refers_to(&vec![at(1, 0), at(2, 5)], 2));
    assert!(!any_refers_to(&vec![at(1, 0), at(2, 5)], 5));
    assert!(!any_refers_to(&vec![], 0));
}

#[test]
fn rename_changes_the_name_only() {
    let mut g: Graph<u8, char> = Graph::new();
    g.add_node("a".to_string(), 's', vec![], vec![10, 11]).unwrap();
    g.add_node("b".to_string(), 'r', vec![at(0, 1)], vec![20]).unwrap();
    assert_eq!(g.rename(1, "c".to_string()), Ok(()));
    assert_eq!(
        g.node(1),
        Some(&Node { id: 1, name: "c".to_string(), op: 'r', inputs: vec![at(0, 1)], outputs: vec![20] })
    );
    assert_eq!(g.id_count(), 2);
    assert_eq!(g.node(0).map(|n| n.name.clone()), Some("a".to_string()));
    assert_eq!(g.rename(2, "d".to_string()), Err(ShapeError::DanglingReference));
    assert_eq!(g.remove_node(1), Ok(()));
    assert_eq!(g.rename(1, "d".to_string()), Err(ShapeError::DanglingReference));
}

#[test]
fn node_by_name_finds_the_first_live_node() {
    let mut g: Graph<u8, char> = Graph::new();
    g.add_node("a".to_string(), 's', vec![], vec![]).unwrap();
    g.add_node("b".to_string(), 's', vec![], vec![]).unwrap();
    g.add_node("b".to_string(), 's', vec![], vec![]).unwrap();
    assert_eq!(g.node_by_name(&"b".to_string()), Some(1));
    assert_eq!(g.node_by_name(&"z".to_string()), None);
    g.remove_node(1).unwrap();
    assert_eq!(g.node_by_name(&"b".to_string()), Some(2));
}

#[test]
fn renumber_closes_the_gaps_and_rewrites_references() {
    let mut g: Graph<u8, char> = Graph::new();
    g.add_node("gone".to_string(), 's', vec![], vec![0]).unwrap();
    g.add_node("a".to_string(), 's', vec![], vec![10, 11]).unwrap();
    g.add_node("gone too".to_string(), 's', vec![at(1, 0)], vec![0]).unwrap();
    g.add_node("b".to_string(), 'r', vec![at(1, 1)], vec![20]).unwrap();
    g.add_node("c".to_string(), 'r', vec![at(3, 0), at(1, 0)], vec![30]).unwrap();
    g.remove_node(2).unwrap();
    g.remove_node(0).unwrap();
    g.set_inputs(vec![at(1, 0)]).unwrap();
    g.set_outputs(vec![at(4, 0)]).unwrap();
    g.renumber();
    assert_eq!(g.id_count(), 3);
    assert_eq!(
        g.node(0),
        Some(&Node { id: 0, name: "a".to_string(), op: 's', inputs: vec![], outputs: vec![10, 11] })
    );
    assert_eq!(
        g.node(1),
        Some(&Node { id: 1, name: "b".to_string(), op: 'r', inputs: vec![at(0, 1)], outputs: vec![20] })
    );
    assert_eq!(
        g.node(2),
        Some(&Node { id: 2, name: "c".to_string(), op: 'r', inputs: vec![at(1, 0), at(0, 0)], outputs: vec![30] })
    );
    assert_eq!(g.inputs, vec![at(0, 0)]);
    assert_eq!(g.outputs, vec![at(2, 0)]);
    assert_eq!(g.new_ids(), vec![0, 1, 2, 3]);
}

#[test]
fn renumber_of_a_graph_without_gaps_changes_nothing() {
    let mut g = sample();
    g.renumber();
    assert_eq!(g, sample());
    let mut empty: Graph<u8, char> = Graph::new();
    empty.renumber();
    assert_eq!(empty.id_count(), 0);
}

#[test]
fn map_refs_replaces_the_node() {
    assert_eq!(map_refs(&vec![at(2, 7), at(0, 1)], &vec![5, 6, 9]), vec![at(9, 7), at(5, 1)]);
}
