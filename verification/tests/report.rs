use shape_inference::graph::{Graph, OutletRef};
use shape_inference::report::{compare_outputs, edge_summaries, EdgeSummary, Mismatch};

fn at(node: usize, slot: usize) -> OutletRef {
    OutletRef { node, slot }
}

#[test]
fn edges_are_numbered_in_node_and_input_order() {
    let mut g: Graph<u8, char> = Graph::new();
    g.add_node("a".to_string(), 's', vec![], vec![1, 2]).unwrap();
    g.add_node("b".to_string(), 'r', vec![at(0, 1)], vec![3]).unwrap();
    g.add_node("gone".to_string(), 'r', vec![at(1, 0)], vec![3]).unwrap();
    g.add_node("c".to_string(), 'r', vec![at(1, 0), at(0, 0)], vec![4]).unwrap();
    g.remove_node(2).unwrap();
    assert_eq!(
        edge_summaries(&g),
        vec![
            EdgeSummary { id: 0, from_node: 0, from_out: 1, to_node: 1 },
            EdgeSummary { id: 1, from_node: 1, from_out: 0, to_node: 3 },
            EdgeSummary { id: 2, from_node: 0, from_out: 0, to_node: 3 },
        ]
    );
    let empty: Graph<u8, char> = Graph::new();
    assert_eq!(edge_summaries(&empty), vec![]);
}

#[test]
fn compare_outputs_accepts_equal_lists() {
    assert_eq!(compare_outputs(&vec![vec![2, 3], vec![1]], &vec![vec![2, 3], vec![1]], &vec![true, true]), Ok(()));
    assert_eq!(compare_outputs(&vec![], &vec![], &vec![]), Ok(()));
}

#[test]
fn compare_outputs_reports_the_count() {
    assert_eq!(
        compare_outputs(&vec![vec![2]], &vec![vec![2], vec![3]], &vec![true, true]),
        Err(Mismatch::Count { expected: 1, found: 2 })
    );
}

#[test]
fn compare_outputs_reports_the_first_difference() {
    let expected = vec![vec![2, 3], vec![4], vec![5]];
    let found = vec![vec![2, 3], vec![4, 1], vec![6]];
    assert_eq!(compare_outputs(&expected, &found, &vec![true, true, true]), Err(Mismatch::Shape { output: 1 }));
    assert_eq!(compare_outputs(&expected, &found, &vec![false, true, true]), Err(Mismatch::Data { output: 0 }));
    assert_eq!(compare_outputs(&expected, &expected, &vec![true, true, false]), Err(Mismatch::Data { output: 2 }));
    assert_eq!(compare_outputs(&expected, &expected, &vec![true, true]), Err(Mismatch::Data { output: 2 }));
}

#[test]
fn compare_outputs_lets_a_scalar_have_any_shape() {
    assert_eq!(compare_outputs(&vec![vec![]], &vec![vec![1, 1]], &vec![true]), Ok(()));
    assert_eq!(compare_outputs(&vec![vec![]], &vec![vec![1, 1]], &vec![false]), Err(Mismatch::Data { output: 0 }));
}
