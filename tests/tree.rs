use formula_tree::tree::{formula_output, position_values};
use formula_tree::{
    edges_from_rows, identifier, nodes_from_rows, parse_sequence, BuildError, EdgeDefinition,
    EvalError, Node, NodeDefinition, NodeOutput, RowError, Tree,
};
use std::collections::HashMap;

fn def(node_id: usize, kind: usize, value: &str) -> NodeDefinition {
    NodeDefinition { node_id, kind, value: value.into() }
}

fn edge(node_id: usize, input_id: usize) -> EdgeDefinition {
    EdgeDefinition { node_id, input_id }
}

fn bits(v: &[f64]) -> Vec<u64> {
    v.iter().map(|x| x.to_bits()).collect()
}

fn number(v: f64) -> NodeOutput {
    NodeOutput::Number(v.to_bits())
}

fn numbers(v: &[f64]) -> NodeOutput {
    NodeOutput::NumberArray(bits(v))
}

fn no_values() -> HashMap<usize, NodeOutput> {
    HashMap::new()
}

#[test]
fn test_tree() {
    let edge_defs = vec![edge(2, 0), edge(2, 1), edge(0, 3), edge(1, 4)];
    let node_defs = vec![
        def(3, 0, "a"),
        def(4, 0, "b"),
        def(0, 1, "a + 1"),
        def(1, 1, "b * 2"),
        def(2, 1, "$0 + $1"),
    ];

    let tree = Tree::new(node_defs, edge_defs).unwrap();
    let inputs = tree.node_inputs(2).unwrap();
    assert_eq!(inputs, vec!["a", "b"]);
}

#[test]
fn lib_test_formula() {
    let node1 = Node::from_float(1.5f64.to_bits()).unwrap();
    let mut node2 = Node::from_float_vec(&bits(&[5.5, 9.5])).unwrap();
    node2.id = 1;
    let mut node3 = Node::from_formula(2, "(id1 - id0) / 2").unwrap();
    node3.inputs = vec![node1.id, node2.id];
    let tree = Tree::from_nodes(vec![node1, node2, node3.clone()]);

    let res = node3.compute(&tree).unwrap();
    assert_eq!(res, numbers(&[2., 4.]));

    let mut node4 = Node::from_formula(3, "id2^2").unwrap();
    node4.inputs = vec![node3.id];

    let res = node4.compute(&tree).unwrap();
    assert_eq!(res, numbers(&[4., 16.]));
}

#[test]
fn node_test_formula() {
    let node1 = Node::from_float(1.5f64.to_bits()).unwrap();
    let mut node2 = Node::from_float_vec(&bits(&[5.5, 9.5])).unwrap();
    node2.id = 1;
    let mut node3 = Node::from_formula(2, "(id1 - id0) / 2").unwrap();
    node3.inputs = vec![node1.id, node2.id];
    let tree = Tree::from_nodes(vec![node1, node2, node3.clone()]);

    let res = node3.eval(&tree, &no_values()).unwrap();
    assert_eq!(res, numbers(&[2., 4.]));

    let mut node4 = Node::from_formula(3, "id2^2").unwrap();
    node4.inputs = vec![node3.id];

    let res = node4.eval(&tree, &no_values()).unwrap();
    assert_eq!(res, numbers(&[4., 16.]));
}

fn constants_tree() -> Tree {
    let nodes = vec![
        def(1, 3, "5.5,9.5"),
        def(0, 2, "1.5"),
        def(2, 1, "(id1 - id0) / 2"),
        def(3, 1, "id2 ^ 2"),
    ];
    let edges = vec![edge(2, 0), edge(2, 1), edge(3, 2)];
    Tree::new(nodes, edges).unwrap()
}

#[test]
fn variable_plus_one() {
    let tree = Tree::new(vec![def(0, 1, "id1 + 1"), def(1, 0, "a")], vec![edge(0, 1)]).unwrap();
    let mut values = HashMap::new();
    values.insert(1, number(3.0));
    assert_eq!(tree.eval(0, &values).unwrap(), number(4.0));
}

#[test]
fn sequence_minus_constant() {
    let tree = constants_tree();
    assert_eq!(tree.eval(2, &no_values()).unwrap(), numbers(&[2.0, 4.0]));
}

#[test]
fn square_of_formula() {
    let tree = constants_tree();
    assert_eq!(tree.eval(3, &no_values()).unwrap(), numbers(&[4.0, 16.0]));
}

#[test]
fn edge_to_missing_node() {
    let r = Tree::new(vec![def(0, 0, "a")], vec![edge(7, 0)]);
    assert_eq!(r.unwrap_err(), BuildError::NodeNotFound { node_id: 7 });
    let r = Tree::new(vec![def(0, 0, "a")], vec![edge(0, 9)]);
    assert_eq!(r.unwrap_err(), BuildError::InputNotFound { input_id: 9 });
}

#[test]
fn unparseable_formula() {
    let r = Tree::new(vec![def(0, 1, "(1 + 2")], vec![]);
    assert_eq!(r.unwrap_err(), BuildError::InvalidFormula { node_id: 0 });
    assert_eq!(Node::from_formula(4, "(1 + 2").unwrap_err(), BuildError::InvalidFormula { node_id: 4 });
}

#[test]
fn invalid_kind_and_literal() {
    assert_eq!(
        Tree::new(vec![def(5, 9, "x")], vec![]).unwrap_err(),
        BuildError::InvalidKind { node_id: 5, kind: 9 }
    );
    assert_eq!(
        Tree::new(vec![def(5, 2, "one")], vec![]).unwrap_err(),
        BuildError::InvalidLiteral { node_id: 5 }
    );
    assert_eq!(
        Tree::new(vec![def(6, 3, "1,,2")], vec![]).unwrap_err(),
        BuildError::InvalidLiteral { node_id: 6 }
    );
}

#[test]
fn unbound_variable() {
    let tree = Tree::new(
        vec![def(0, 1, "id1 + id2"), def(1, 0, "a"), def(2, 2, "1")],
        vec![edge(0, 1), edge(0, 2)],
    )
    .unwrap();
    assert_eq!(tree.eval(0, &no_values()).unwrap_err(), EvalError::UnboundVariable { node_id: 1, name: "a".to_string() });
}

#[test]
fn ragged_inputs_repeat_last_value() {
    let tree = Tree::new(
        vec![def(0, 3, "1,2,3"), def(1, 3, "10,20"), def(2, 1, "id0 + id1")],
        vec![edge(2, 0), edge(2, 1)],
    )
    .unwrap();
    assert_eq!(tree.eval(2, &no_values()).unwrap(), numbers(&[11.0, 22.0, 23.0]));
}

#[test]
fn broadcast_scalar_over_sequence() {
    let tree = Tree::new(
        vec![def(0, 3, "1,2,3,4"), def(1, 2, "10"), def(2, 1, "id0 * id1")],
        vec![edge(2, 1), edge(2, 0)],
    )
    .unwrap();
    assert_eq!(tree.eval(2, &no_values()).unwrap(), numbers(&[10.0, 20.0, 30.0, 40.0]));
}

#[test]
fn constants_ignore_inputs() {
    let tree = Tree::new(
        vec![def(0, 3, "1,2,3"), def(1, 2, "7"), def(2, 3, "8,9")],
        vec![edge(1, 0), edge(2, 0)],
    )
    .unwrap();
    assert_eq!(tree.eval(1, &no_values()).unwrap(), number(7.0));
    assert_eq!(tree.eval(2, &no_values()).unwrap(), numbers(&[8.0, 9.0]));
}

#[test]
fn collapse_of_outputs() {
    let tree = Tree::new(
        vec![def(0, 3, "2.5"), def(1, 1, "id0 * 2"), def(2, 1, "1 + 2")],
        vec![edge(1, 0)],
    )
    .unwrap();
    assert_eq!(tree.eval(0, &no_values()).unwrap(), number(2.5));
    assert_eq!(tree.eval(1, &no_values()).unwrap(), number(5.0));
    assert_eq!(tree.eval(2, &no_values()).unwrap_err(), EvalError::EmptyOutput { node_id: 2 });
}

#[test]
fn variable_values_collapse() {
    let tree = Tree::new(vec![def(0, 0, "a")], vec![]).unwrap();
    let mut values = HashMap::new();
    values.insert(0, numbers(&[6.0]));
    assert_eq!(tree.eval(0, &values).unwrap(), number(6.0));
    values.insert(0, numbers(&[]));
    assert_eq!(tree.eval(0, &values).unwrap_err(), EvalError::EmptyOutput { node_id: 0 });
    values.insert(0, numbers(&[1.0, 2.0]));
    assert_eq!(tree.eval(0, &values).unwrap(), numbers(&[1.0, 2.0]));
}

#[test]
fn input_order_follows_edges() {
    let tree = Tree::new(
        vec![def(0, 2, "1"), def(1, 2, "10"), def(2, 1, "id1 - id0")],
        vec![edge(2, 1), edge(2, 0)],
    )
    .unwrap();
    assert_eq!(tree.eval(2, &no_values()).unwrap(), number(9.0));
    let node = Node::from_formula(2, "id1 - id0").unwrap();
    assert_eq!(node.inputs(&tree).unwrap(), vec![2]);
}

#[test]
fn external_query_unsupported() {
    let tree = Tree::new(vec![def(0, 4, "select 1")], vec![]).unwrap();
    assert_eq!(tree.eval(0, &no_values()).unwrap_err(), EvalError::Unsupported { node_id: 0 });
}

#[test]
fn formula_evaluation_failure() {
    let tree = Tree::new(vec![def(0, 2, "1"), def(1, 1, "id0 + nope")], vec![edge(1, 0)]).unwrap();
    assert_eq!(tree.eval(1, &no_values()).unwrap_err(), EvalError::FormulaFailed { node_id: 1 });
}

#[test]
fn missing_node_and_cycle() {
    let tree = Tree::new(
        vec![def(0, 1, "id1 + 1"), def(1, 1, "id0 + 1")],
        vec![edge(0, 1), edge(1, 0)],
    )
    .unwrap();
    assert_eq!(tree.eval(5, &no_values()).unwrap_err(), EvalError::NodeNotFound { node_id: 5 });
    assert!(matches!(tree.eval(0, &no_values()).unwrap_err(), EvalError::TooDeep { .. }));
}

#[test]
fn duplicate_definitions_keep_first() {
    let tree = Tree::new(vec![def(0, 2, "1"), def(0, 2, "2")], vec![]).unwrap();
    assert_eq!(tree.eval(0, &no_values()).unwrap(), number(1.0));
}

#[test]
fn leaves_and_variable_names() {
    let tree = Tree::new(
        vec![def(0, 0, "x"), def(1, 2, "3"), def(2, 1, "id0 + id1"), def(3, 1, "id2 + id0")],
        vec![edge(2, 0), edge(2, 1), edge(3, 2), edge(3, 0)],
    )
    .unwrap();
    assert_eq!(tree.node_inputs(3).unwrap(), vec!["x", "x"]);
    assert_eq!(tree.node_inputs(9).unwrap_err(), EvalError::NodeNotFound { node_id: 9 });
}

#[test]
fn identifiers_and_literals() {
    assert_eq!(identifier(0), "id0");
    assert_eq!(identifier(12), "id12");
    assert_eq!(identifier(907), "id907");
    assert_eq!(parse_sequence("5.5,9.5"), Some(bits(&[5.5, 9.5])));
    assert_eq!(parse_sequence("x"), None);
}

#[test]
fn rows_to_definitions() {
    let (edges, ids) = edges_from_rows(&vec![(3, 1), (3, 2), (2, 1)]).unwrap();
    assert_eq!(edges, vec![edge(3, 1), edge(3, 2), edge(2, 1)]);
    assert_eq!(ids, vec![3, 1, 2]);
    assert_eq!(edges_from_rows(&vec![(3, -1)]).unwrap_err(), RowError::InvalidId { value: -1 });
    let defs = nodes_from_rows(vec![(1, 0, "a + 2".to_string()), (3, 2, "id0 + id1".to_string())]).unwrap();
    assert_eq!(defs.len(), 2);
    assert_eq!(defs[1].node_id, 3);
    assert_eq!(defs[1].kind, 2);
    assert_eq!(defs[1].value, "id0 + id1");
    assert!(nodes_from_rows(vec![(-4, 0, String::new())]).is_err());
}

#[test]
fn values_at_each_position() {
    let vals = vec![vec![1, 2, 3], vec![10], vec![7, 8]];
    assert_eq!(position_values(&vals, 0), vec![1, 10, 7]);
    assert_eq!(position_values(&vals, 1), vec![2, 10, 8]);
    assert_eq!(position_values(&vals, 2), vec![3, 10, 8]);
    assert_eq!(position_values(&vals, 9), vec![3, 10, 8]);
}

#[test]
fn output_from_position_results() {
    assert_eq!(formula_output(4, &vec![Some(1), Some(2)]).unwrap(), NodeOutput::NumberArray(vec![1, 2]));
    assert_eq!(formula_output(4, &vec![Some(5)]).unwrap(), NodeOutput::Number(5));
    assert_eq!(formula_output(4, &vec![Some(1), None, Some(3)]).unwrap_err(), EvalError::FormulaFailed { node_id: 4 });
    assert_eq!(formula_output(4, &vec![]).unwrap_err(), EvalError::EmptyOutput { node_id: 4 });
}

#[test]
fn builtin_functions_are_off() {
    let tree = Tree::new(
        vec![def(0, 2, "1"), def(1, 1, "shl(1, 70) + id0"), def(2, 1, "str::substring(\"é\", 1, 2) + id0")],
        vec![edge(1, 0), edge(2, 0)],
    )
    .unwrap();
    assert_eq!(tree.eval(1, &no_values()).unwrap_err(), EvalError::FormulaFailed { node_id: 1 });
    assert_eq!(tree.eval(2, &no_values()).unwrap_err(), EvalError::FormulaFailed { node_id: 2 });
}

#[test]
fn constant_over_formula_keeps_its_value() {
    let tree = Tree::new(
        vec![def(0, 2, "2"), def(1, 1, "id0 * 3"), def(2, 2, "7"), def(3, 3, "4,5")],
        vec![edge(1, 0), edge(2, 1), edge(3, 1)],
    )
    .unwrap();
    assert_eq!(tree.eval(2, &no_values()).unwrap(), number(7.0));
    assert_eq!(tree.eval(3, &no_values()).unwrap(), numbers(&[4.0, 5.0]));
}
