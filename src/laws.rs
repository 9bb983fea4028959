//! Properties of building and evaluating, proved over the models.
use vstd::prelude::*;
use crate::eval::{
    any_fails, bindings_at, broadcast_len, collapse, combine, eval_inputs, eval_node, eval_with,
    fails_node, fails_with, len_with, lengths, lens_inputs, pick,
};
use crate::formula::formula_parses;
use crate::node::{
    BuildError, EdgeDefinition, EvalErrorModel, NodeDefinition, NodeModel, NodeOutput, FORMULA,
};
use crate::text::{decimal, digit, ident};
use crate::tree::{
    add_edges, build, build_nodes, lemma_add_edges_error, lemma_build_nodes_error,
    lemma_eval_inputs_error, lookup, node_of, position,
};

verus! {

proof fn lemma_broadcast_len_max(lens: Seq<nat>)
    ensures
        forall|i: int| 0 <= i < lens.len() ==> #[trigger] lens[i] <= broadcast_len(lens),
        lens.len() > 0 ==> exists|i: int| 0 <= i < lens.len() && #[trigger] lens[i] == broadcast_len(lens),
    decreases lens.len(),
{
    if lens.len() > 0 {
        let init = lens.drop_last();
        lemma_broadcast_len_max(init);
        assert forall|i: int| 0 <= i < lens.len() implies #[trigger] lens[i] <= broadcast_len(lens) by {
            if i < init.len() {
                assert(lens[i] == init[i]);
            }
        }
        if lens.last() <= broadcast_len(init) && init.len() > 0 {
            let j = choose|j: int| 0 <= j < init.len() && #[trigger] init[j] == broadcast_len(init);
            assert(lens[j] == init[j]);
        } else {
            assert(lens[lens.len() - 1] == lens.last());
        }
    }
}

/// A formula node's output, where it succeeds, is as long as its longest
/// input and at least as long as each; a constant yields one value and a
/// constant sequence its stored values, whatever its inputs. A formula
/// whose inputs are all empty of positions fails as an empty output.
pub proof fn lemma_broadcast_length(nodes: Seq<NodeModel>, n: NodeModel, env: Map<usize, NodeOutput>, fuel: nat)
    requires
        fuel > 0,
    ensures
        n.kind is Formula ==> {
            let ls = lens_inputs(nodes, n.inputs, env, (fuel - 1) as nat);
            &&& len_with(nodes, n, env, fuel) == broadcast_len(ls)
            &&& forall|i: int| 0 <= i < ls.len() ==> #[trigger] ls[i] <= len_with(nodes, n, env, fuel)
            &&& ls.len() > 0 ==> exists|i: int|
                0 <= i < ls.len() && #[trigger] ls[i] == len_with(nodes, n, env, fuel)
        },
        n.kind is Constant ==> len_with(nodes, n, env, fuel) == 1,
        n.kind is ConstantSequence ==> len_with(nodes, n, env, fuel) == n.kind->ConstantSequence_0.len(),
        forall|vals: Seq<Seq<u64>>| n.kind is Formula && broadcast_len(#[trigger] lengths(vals)) == 0 ==> combine(n, vals)
            == Some(Err::<Seq<u64>, EvalErrorModel>(EvalErrorModel::EmptyOutput { node_id: n.id })),
{
    lemma_broadcast_len_max(lens_inputs(nodes, n.inputs, env, (fuel - 1) as nat));
}

proof fn lemma_decimal_len(n: nat)
    ensures
        decimal(n).len() >= 1,
        n >= 10 ==> decimal(n).len() >= 2,
    decreases n,
{
    if n >= 10 {
        lemma_decimal_len(n / 10);
    }
}

proof fn lemma_decimal_injective(a: nat, b: nat)
    requires
        decimal(a) == decimal(b),
    ensures
        a == b,
    decreases a,
{
    lemma_decimal_len(a);
    lemma_decimal_len(b);
    if a >= 10 && b >= 10 {
        assert(decimal(a).last() == digit(a % 10));
        assert(decimal(a).drop_last() =~= decimal(a / 10));
        assert(decimal(b).drop_last() =~= decimal(b / 10));
        lemma_decimal_injective(a / 10, b / 10);
    } else if a < 10 && b < 10 {
        assert(decimal(a)[0] == digit(a));
    } else if a < 10 {
        assert(decimal(a).len() == 1);
    } else {
        assert(decimal(b).len() == 1);
    }
}

/// Distinct nodes have distinct synthetic identifiers.
pub proof fn lemma_ident_injective(a: usize, b: usize)
    requires
        ident(a) == ident(b),
    ensures
        a == b,
{
    let pa = seq!['i', 'd'];
    assert((pa + decimal(a as nat)).subrange(2, ident(a).len() as int) =~= decimal(a as nat));
    assert((pa + decimal(b as nat)).subrange(2, ident(b).len() as int) =~= decimal(b as nat));
    lemma_decimal_injective(a as nat, b as nat);
}

/// At every position a formula sees input `k` under its identifier, with
/// the input's value there; past the input's end, its last value.
pub proof fn lemma_ragged_repeat(ids: Seq<usize>, vals: Seq<Seq<u64>>, p: int, k: int)
    requires
        0 <= k < ids.len(),
        ids.len() <= vals.len(),
        0 <= p,
        forall|j: int| k < j < ids.len() ==> ids[j] != ids[k],
    ensures
        bindings_at(ids, vals, p).contains_key(ident(ids[k])),
        bindings_at(ids, vals, p)[ident(ids[k])] == pick(vals[k], p),
        p < vals[k].len() ==> bindings_at(ids, vals, p)[ident(ids[k])] == vals[k][p],
        p >= vals[k].len() ==> bindings_at(ids, vals, p)[ident(ids[k])] == vals[k].last(),
    decreases ids.len(),
{
    if k < ids.len() - 1 {
        let init = ids.drop_last();
        assert forall|j: int| k < j < init.len() implies init[j] != init[k] by {
            assert(init[j] == ids[j]);
        }
        lemma_ragged_repeat(init, vals, p, k);
        if ident(ids.last()) == ident(ids[k]) {
            lemma_ident_injective(ids.last(), ids[k]);
            assert(ids[ids.len() - 1] == ids.last());
        }
    }
}

/// `v` extended to length `len` by repeating its last value.
pub open spec fn padded(v: Seq<u64>, len: nat) -> Seq<u64> {
    Seq::new(if v.len() > len { v.len() } else { len }, |i: int| pick(v, i))
}

/// Padding each input to a length by repeating its last value changes no
/// binding at any position below that length: a shorter input holds its
/// last value, not zero and not its first.
pub proof fn lemma_padding_keeps_bindings(ids: Seq<usize>, vals: Seq<Seq<u64>>, len: nat, p: int)
    requires
        ids.len() <= vals.len(),
        0 <= p < len,
    ensures
        bindings_at(ids, vals, p) == bindings_at(
            ids,
            Seq::new(vals.len(), |k: int| padded(vals[k], len)),
            p,
        ),
    decreases ids.len(),
{
    let pv = Seq::new(vals.len(), |k: int| padded(vals[k], len));
    if ids.len() > 0 {
        lemma_padding_keeps_bindings(ids.drop_last(), vals, len, p);
        let k = ids.len() - 1;
        assert(pick(pv[k], p) == pick(vals[k], p));
    }
}

/// Every successful evaluation in the model yields at least one value.
pub proof fn lemma_output_nonempty(nodes: Seq<NodeModel>, n: NodeModel, env: Map<usize, NodeOutput>, fuel: nat)
    requires
        eval_with(nodes, n, env, fuel) matches Some(Ok(_)),
    ensures
        eval_with(nodes, n, env, fuel)->0->Ok_0.len() >= 1,
{
}

/// An output of one value, of more, or of none: collapsing keeps one or
/// more values and fails on none.
pub proof fn lemma_collapse(id: usize, s: Seq<u64>)
    ensures
        collapse(id, s) is Err <==> s.len() == 0,
        s.len() == 0 ==> collapse(id, s) == Err::<Seq<u64>, EvalErrorModel>(
            EvalErrorModel::EmptyOutput { node_id: id },
        ),
        s.len() >= 1 ==> collapse(id, s) == Ok::<Seq<u64>, EvalErrorModel>(s),
{
}

/// A variable node without a value fails as unbound, naming the node and
/// the variable, before its inputs are looked at.
pub proof fn lemma_unbound_variable(nodes: Seq<NodeModel>, n: NodeModel, env: Map<usize, NodeOutput>, fuel: nat)
    requires
        fuel > 0,
        n.kind is Variable,
        !env.contains_key(n.id),
    ensures
        eval_with(nodes, n, env, fuel) == Some(
            Err::<Seq<u64>, EvalErrorModel>(
                EvalErrorModel::UnboundVariable { node_id: n.id, name: n.kind->Variable_0 },
            ),
        ),
        fails_with(nodes, n, env, fuel),
{
}

proof fn lemma_any_fails(nodes: Seq<NodeModel>, ids: Seq<usize>, env: Map<usize, NodeOutput>, fuel: nat, k: int)
    requires
        0 <= k < ids.len(),
        fails_node(nodes, ids[k], env, fuel),
    ensures
        any_fails(nodes, ids, env, fuel),
    decreases ids.len(),
{
    if k < ids.len() - 1 {
        assert(ids.drop_last()[k] == ids[k]);
        lemma_any_fails(nodes, ids.drop_last(), env, fuel, k);
    } else {
        assert(ids.last() == ids[k]);
    }
}

/// A node over an input that fails whatever the expression evaluator
/// returns fails so too, unless it is a variable, which reads no inputs.
/// With the evaluation's contract, a variable without a value fails every
/// node that reaches it through non-variable nodes: no value is put in its
/// place.
pub proof fn lemma_failure_reaches(nodes: Seq<NodeModel>, n: NodeModel, env: Map<usize, NodeOutput>, fuel: nat, k: int)
    requires
        fuel > 0,
        !(n.kind is Variable),
        0 <= k < n.inputs.len(),
        fails_node(nodes, n.inputs[k], env, (fuel - 1) as nat),
    ensures
        fails_with(nodes, n, env, fuel),
{
    lemma_any_fails(nodes, n.inputs, env, (fuel - 1) as nat, k);
}

/// When the first failing input of a node fails, the node fails with the
/// same error: no value is put in the failed input's place.
pub proof fn lemma_failure_propagates(
    nodes: Seq<NodeModel>,
    n: NodeModel,
    env: Map<usize, NodeOutput>,
    fuel: nat,
    k: int,
)
    requires
        fuel > 0,
        !(n.kind is Variable),
        0 <= k < n.inputs.len(),
        eval_inputs(nodes, n.inputs.take(k), env, (fuel - 1) as nat) matches Some(Ok(_)),
        eval_node(nodes, n.inputs[k], env, (fuel - 1) as nat) matches Some(Err(_)),
    ensures
        eval_with(nodes, n, env, fuel) == eval_node(nodes, n.inputs[k], env, (fuel - 1) as nat),
{
    let f = (fuel - 1) as nat;
    assert(n.inputs.take(k + 1).drop_last() =~= n.inputs.take(k));
    assert(n.inputs.take(k + 1).last() == n.inputs[k]);
    lemma_eval_inputs_error(nodes, n.inputs, env, f, k + 1);
}

/// The inputs that the edges give node `id`, in the order of the edges.
pub open spec fn edge_inputs(edges: Seq<EdgeDefinition>, id: usize) -> Seq<usize>
    decreases edges.len(),
{
    if edges.len() == 0 {
        Seq::empty()
    } else {
        let r = edge_inputs(edges.drop_last(), id);
        if edges.last().node_id == id {
            r.push(edges.last().input_id)
        } else {
            r
        }
    }
}

/// No two nodes share an id.
pub open spec fn unique_ids(nodes: Seq<NodeModel>) -> bool {
    forall|i: int, j: int| 0 <= i < j < nodes.len() ==> nodes[i].id != nodes[j].id
}

proof fn lemma_position(nodes: Seq<NodeModel>, id: usize)
    ensures
        match position(nodes, id) {
            Some(i) => 0 <= i < nodes.len() && nodes[i].id == id && forall|j: int|
                0 <= j < i ==> (#[trigger] nodes[j]).id != id,
            None => forall|j: int| 0 <= j < nodes.len() ==> (#[trigger] nodes[j]).id != id,
        },
    decreases nodes.len(),
{
    if nodes.len() > 0 && nodes[0].id != id {
        let rest = nodes.subrange(1, nodes.len() as int);
        lemma_position(rest, id);
        assert forall|j: int| 1 <= j < nodes.len() implies nodes[j] == rest[j - 1] by {}
    }
}

proof fn lemma_build_nodes_shape(defs: Seq<NodeDefinition>)
    requires
        build_nodes(defs) is Ok,
    ensures
        unique_ids(build_nodes(defs)->Ok_0),
        forall|i: int| 0 <= i < build_nodes(defs)->Ok_0.len() ==> (#[trigger] build_nodes(defs)->Ok_0[i]).inputs
            == Seq::<usize>::empty(),
    decreases defs.len(),
{
    if defs.len() > 0 {
        lemma_build_nodes_shape(defs.drop_last());
        let nodes = build_nodes(defs.drop_last())->Ok_0;
        lemma_position(nodes, defs.last().node_id);
    }
}

proof fn lemma_edges_append(nodes: Seq<NodeModel>, edges: Seq<EdgeDefinition>)
    requires
        unique_ids(nodes),
        add_edges(nodes, edges) is Ok,
    ensures
        add_edges(nodes, edges)->Ok_0.len() == nodes.len(),
        forall|i: int| 0 <= i < nodes.len() ==> (#[trigger] add_edges(nodes, edges)->Ok_0[i]).id == nodes[i].id
            && add_edges(nodes, edges)->Ok_0[i].kind == nodes[i].kind
            && add_edges(nodes, edges)->Ok_0[i].inputs == nodes[i].inputs + edge_inputs(edges, nodes[i].id),
    decreases edges.len(),
{
    if edges.len() == 0 {
        assert forall|i: int| 0 <= i < nodes.len() implies nodes[i].inputs =~= nodes[i].inputs + edge_inputs(edges, nodes[i].id) by {}
    } else {
        let init = edges.drop_last();
        lemma_edges_append(nodes, init);
        let ns = add_edges(nodes, init)->Ok_0;
        let e = edges.last();
        lemma_position(ns, e.node_id);
        let i = position(ns, e.node_id)->0;
        let r = add_edges(nodes, edges)->Ok_0;
        assert forall|j: int| 0 <= j < nodes.len() implies (#[trigger] r[j]).id == nodes[j].id
            && r[j].kind == nodes[j].kind
            && r[j].inputs == nodes[j].inputs + edge_inputs(edges, nodes[j].id) by {
            if j == i {
                assert(r[j].inputs =~= nodes[j].inputs + edge_inputs(edges, nodes[j].id));
            } else {
                assert(ns[j].id != e.node_id);
            }
        }
    }
}

/// In a built tree the inputs of each node are the inputs of the edges that
/// name it, in the order of the edge list.
pub proof fn lemma_input_order(defs: Seq<NodeDefinition>, edges: Seq<EdgeDefinition>, tree: Seq<NodeModel>)
    requires
        build(defs, edges) == Ok::<Seq<NodeModel>, crate::node::BuildError>(tree),
    ensures
        unique_ids(tree),
        forall|i: int| 0 <= i < tree.len() ==> (#[trigger] tree[i]).inputs == edge_inputs(edges, tree[i].id),
{
    lemma_build_nodes_shape(defs);
    let nodes = build_nodes(defs)->Ok_0;
    lemma_edges_append(nodes, edges);
    assert forall|i: int| 0 <= i < tree.len() implies (#[trigger] tree[i]).inputs == edge_inputs(edges, tree[i].id) by {
        assert(tree[i].inputs =~= nodes[i].inputs + edge_inputs(edges, nodes[i].id));
    }
}

/// Some definition names `id`.
pub open spec fn defines(defs: Seq<NodeDefinition>, id: usize) -> bool {
    exists|j: int| 0 <= j < defs.len() && (#[trigger] defs[j]).node_id == id
}

proof fn lemma_build_nodes_ids(defs: Seq<NodeDefinition>)
    requires
        build_nodes(defs) is Ok,
    ensures
        forall|i: int| 0 <= i < build_nodes(defs)->Ok_0.len() ==> defines(
            defs,
            (#[trigger] build_nodes(defs)->Ok_0[i]).id,
        ),
    decreases defs.len(),
{
    if defs.len() > 0 {
        let init = defs.drop_last();
        lemma_build_nodes_ids(init);
        let ns = build_nodes(defs)->Ok_0;
        let prev = build_nodes(init)->Ok_0;
        assert forall|i: int| 0 <= i < ns.len() implies defines(defs, (#[trigger] ns[i]).id) by {
            if i < prev.len() {
                let j = choose|j: int| 0 <= j < init.len() && (#[trigger] init[j]).node_id == prev[i].id;
                assert(defs[j] == init[j]);
            } else {
                assert(defs[defs.len() - 1] == defs.last());
            }
        }
    }
}

proof fn lemma_build_nodes_covers(defs: Seq<NodeDefinition>, id: usize)
    requires
        build_nodes(defs) is Ok,
        defines(defs, id),
    ensures
        position(build_nodes(defs)->Ok_0, id) is Some,
    decreases defs.len(),
{
    let init = defs.drop_last();
    let prev = build_nodes(init)->Ok_0;
    let ns = build_nodes(defs)->Ok_0;
    let j = choose|j: int| 0 <= j < defs.len() && (#[trigger] defs[j]).node_id == id;
    lemma_position(prev, id);
    lemma_position(ns, id);
    if j < init.len() {
        assert(init[j] == defs[j]);
        lemma_build_nodes_covers(init, id);
        let i = position(prev, id)->0;
        if position(prev, defs.last().node_id) is None {
            assert(ns[i] == prev[i]);
        }
    } else {
        lemma_position(prev, defs.last().node_id);
        if position(prev, defs.last().node_id) is Some {
            let i = position(prev, id)->0;
        } else {
            assert(ns[ns.len() - 1].id == id);
        }
    }
}

/// An edge whose node, or whose input, no definition names makes building
/// fail; where every earlier edge applies, the error names that id.
pub proof fn lemma_dangling_edge(defs: Seq<NodeDefinition>, edges: Seq<EdgeDefinition>, k: int)
    requires
        build_nodes(defs) is Ok,
        0 <= k < edges.len(),
        (forall|j: int| 0 <= j < defs.len() ==> (#[trigger] defs[j]).node_id != edges[k].node_id)
            || (forall|j: int| 0 <= j < defs.len() ==> (#[trigger] defs[j]).node_id != edges[k].input_id),
    ensures
        build(defs, edges) is Err,
        add_edges(build_nodes(defs)->Ok_0, edges.take(k)) is Ok && (forall|j: int|
            0 <= j < defs.len() ==> (#[trigger] defs[j]).node_id != edges[k].node_id) ==> build(defs, edges)
            == Err::<Seq<NodeModel>, BuildError>(BuildError::NodeNotFound { node_id: edges[k].node_id }),
        add_edges(build_nodes(defs)->Ok_0, edges.take(k)) is Ok && (exists|j: int|
            0 <= j < defs.len() && (#[trigger] defs[j]).node_id == edges[k].node_id) ==> build(defs, edges)
            == Err::<Seq<NodeModel>, BuildError>(BuildError::InputNotFound { input_id: edges[k].input_id }),
{
    let nodes = build_nodes(defs)->Ok_0;
    lemma_build_nodes_shape(defs);
    lemma_build_nodes_ids(defs);
    let e = edges[k];
    assert(edges.take(k + 1).drop_last() =~= edges.take(k));
    assert(edges.take(k + 1).last() == e);
    if add_edges(nodes, edges.take(k)) is Err {
        lemma_add_edges_error(nodes, edges, k);
    } else {
        lemma_edges_append(nodes, edges.take(k));
        let ns = add_edges(nodes, edges.take(k))->Ok_0;
        lemma_position(ns, e.node_id);
        lemma_position(ns, e.input_id);
        assert forall|i: int| 0 <= i < ns.len() implies defines(defs, (#[trigger] ns[i]).id) by {
            assert(ns[i].id == nodes[i].id);
        }
        if defines(defs, e.node_id) {
            lemma_build_nodes_covers(defs, e.node_id);
            lemma_position(nodes, e.node_id);
            let i = position(nodes, e.node_id)->0;
            assert(ns[i].id == e.node_id);
        }
        if forall|j: int| 0 <= j < defs.len() ==> (#[trigger] defs[j]).node_id != e.node_id {
            assert(position(ns, e.node_id) is None) by {
                if position(ns, e.node_id) is Some {
                    let i = position(ns, e.node_id)->0;
                    let j = choose|j: int| 0 <= j < defs.len() && (#[trigger] defs[j]).node_id == ns[i].id;
                }
            }
        } else {
            assert(position(ns, e.input_id) is None) by {
                if position(ns, e.input_id) is Some {
                    let i = position(ns, e.input_id)->0;
                    let j = choose|j: int| 0 <= j < defs.len() && (#[trigger] defs[j]).node_id == ns[i].id;
                }
            }
        }
        lemma_add_edges_error(nodes, edges, k + 1);
    }
}

/// A formula whose text does not parse, in the first definition of its id,
/// makes building fail before any tree exists.
pub proof fn lemma_bad_formula(defs: Seq<NodeDefinition>, edges: Seq<EdgeDefinition>, k: int)
    requires
        0 <= k < defs.len(),
        forall|j: int| 0 <= j < k ==> (#[trigger] defs[j]).node_id != defs[k].node_id,
        defs[k].kind == FORMULA,
        !formula_parses(defs[k].value@),
    ensures
        build(defs, edges) is Err,
        build_nodes(defs.take(k)) is Ok ==> build(defs, edges) == Err::<Seq<NodeModel>, BuildError>(
            BuildError::InvalidFormula { node_id: defs[k].node_id },
        ),
{
    let d = defs[k];
    let pre = defs.take(k);
    assert(defs.take(k + 1).drop_last() =~= pre);
    assert(defs.take(k + 1).last() == d);
    if build_nodes(pre) is Err {
        lemma_build_nodes_error(defs, k);
    } else {
        lemma_build_nodes_ids(pre);
        let ns = build_nodes(pre)->Ok_0;
        lemma_position(ns, d.node_id);
        assert(position(ns, d.node_id) is None) by {
            if position(ns, d.node_id) is Some {
                let i = position(ns, d.node_id)->0;
                let j = choose|j: int| 0 <= j < pre.len() && (#[trigger] pre[j]).node_id == ns[i].id;
                assert(pre[j] == defs[j]);
            }
        }
        assert(node_of(d.node_id, d.kind, d.value@) is Err);
        lemma_build_nodes_error(defs, k + 1);
    }
}

/// `path` leads from its first node down to its last: each node but the
/// last reads the next as an input and is not a variable, and each node
/// after the first is the one that `nodes` holds under its id.
pub open spec fn input_path(nodes: Seq<NodeModel>, path: Seq<NodeModel>) -> bool {
    &&& path.len() >= 1
    &&& forall|i: int| 0 <= i < path.len() - 1 ==> !((#[trigger] path[i]).kind is Variable)
        && path[i].inputs.contains(path[i + 1].id)
    &&& forall|i: int| 1 <= i < path.len() ==> lookup(nodes, (#[trigger] path[i]).id) == Some(path[i])
}

/// A variable without a value at the end of a path of inputs fails the
/// path's first node whatever the expression evaluator returns, when the
/// recursion may go as deep as the path: with the evaluation's contract,
/// evaluating that node gives an error and no value stands in for the
/// variable.
pub proof fn lemma_unbound_along_path(
    nodes: Seq<NodeModel>,
    path: Seq<NodeModel>,
    env: Map<usize, NodeOutput>,
    fuel: nat,
)
    requires
        input_path(nodes, path),
        fuel >= path.len(),
        path.last().kind is Variable,
        !env.contains_key(path.last().id),
    ensures
        fails_with(nodes, path[0], env, fuel),
    decreases path.len(),
{
    if path.len() == 1 {
        assert(path[0] == path.last());
    } else {
        let rest = path.subrange(1, path.len() as int);
        assert forall|i: int| 0 <= i < rest.len() - 1 implies !((#[trigger] rest[i]).kind is Variable)
            && rest[i].inputs.contains(rest[i + 1].id) by {
            assert(rest[i] == path[i + 1] && rest[i + 1] == path[i + 2]);
        }
        assert forall|i: int| 1 <= i < rest.len() implies lookup(nodes, (#[trigger] rest[i]).id) == Some(
            rest[i],
        ) by {
            assert(rest[i] == path[i + 1]);
        }
        assert(rest.last() == path.last());
        lemma_unbound_along_path(nodes, rest, env, (fuel - 1) as nat);
        assert(rest[0] == path[1]);
        assert(lookup(nodes, path[1].id) == Some(path[1]));
        assert(path[0].inputs.contains(path[1].id));
        let k = choose|k: int| 0 <= k < path[0].inputs.len() && path[0].inputs[k] == path[1].id;
        lemma_failure_reaches(nodes, path[0], env, fuel, k);
    }
}

} // verus!
