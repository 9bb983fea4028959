//! The arena of nodes, built from definitions.
use vstd::prelude::*;
use crate::eval::{
    agrees, any_fails, bindings_at, broadcast_len, collapse, detached_fuel, err_with, eval_inputs,
    eval_node, eval_with, evaluate, evaluate_len, fails_node, fails_with, formula_result,
    inputs_err, leaves_all, leaves_of, leaves_with, len_node, len_with, lengths, lens_inputs,
    node_err, own_values, pick, sound, variable_names,
};
use crate::formula::{
    builtins_disabled, context_vars, disable_builtins, evaluate_formula, float_literal,
    formula_parses, new_context, set_number,
};
use crate::node::{
    BuildError, EdgeDefinition, EvalError, EvalErrorModel, KindModel, Node, NodeDefinition, NodeKind, NodeModel,
    NodeOutput, CONSTANT, CONSTANT_SEQUENCE, EXTERNAL_QUERY, FORMULA, VARIABLE,
};
use crate::text::{identifier, parse_scalar, parse_sequence, sequence_literal};
use std::collections::HashMap;

verus! {

/// The position of the first node with id `id`.
pub open spec fn position(nodes: Seq<NodeModel>, id: usize) -> Option<int>
    decreases nodes.len(),
{
    if nodes.len() == 0 {
        None
    } else if nodes[0].id == id {
        Some(0)
    } else {
        match position(nodes.subrange(1, nodes.len() as int), id) {
            Some(i) => Some(i + 1),
            None => None,
        }
    }
}

/// A position moved right by `d`.
pub open spec fn offset(p: Option<int>, d: int) -> Option<int> {
    match p {
        Some(i) => Some(i + d),
        None => None,
    }
}

/// The node with id `id`.
pub open spec fn lookup(nodes: Seq<NodeModel>, id: usize) -> Option<NodeModel> {
    match position(nodes, id) {
        Some(i) => Some(nodes[i]),
        None => None,
    }
}

/// The node that a definition describes, without inputs.
pub open spec fn node_of(id: usize, kind: usize, value: Seq<char>) -> Result<NodeModel, BuildError> {
    let k = if kind == VARIABLE {
        Ok(KindModel::Variable(value))
    } else if kind == FORMULA {
        if formula_parses(value) {
            Ok(KindModel::Formula(value))
        } else {
            Err(BuildError::InvalidFormula { node_id: id })
        }
    } else if kind == CONSTANT {
        match float_literal(value) {
            Some(b) => Ok(KindModel::Constant(b)),
            None => Err(BuildError::InvalidLiteral { node_id: id }),
        }
    } else if kind == CONSTANT_SEQUENCE {
        match sequence_literal(value) {
            Some(s) => Ok(KindModel::ConstantSequence(s)),
            None => Err(BuildError::InvalidLiteral { node_id: id }),
        }
    } else if kind == EXTERNAL_QUERY {
        Ok(KindModel::ExternalQuery(value))
    } else {
        Err(BuildError::InvalidKind { node_id: id, kind })
    };
    match k {
        Ok(k) => Ok(NodeModel { id, inputs: Seq::empty(), kind: k }),
        Err(e) => Err(e),
    }
}

/// The nodes of the definitions in order; a later definition of an id
/// already defined is ignored.
pub open spec fn build_nodes(defs: Seq<NodeDefinition>) -> Result<Seq<NodeModel>, BuildError>
    decreases defs.len(),
{
    if defs.len() == 0 {
        Ok(Seq::empty())
    } else {
        match build_nodes(defs.drop_last()) {
            Err(e) => Err(e),
            Ok(nodes) => {
                let d = defs.last();
                if position(nodes, d.node_id) is Some {
                    Ok(nodes)
                } else {
                    match node_of(d.node_id, d.kind, d.value@) {
                        Ok(n) => Ok(nodes.push(n)),
                        Err(e) => Err(e),
                    }
                }
            },
        }
    }
}

/// The nodes after the edges are applied in order: each appends its input
/// to the inputs of its node.
pub open spec fn add_edges(nodes: Seq<NodeModel>, edges: Seq<EdgeDefinition>) -> Result<
    Seq<NodeModel>,
    BuildError,
>
    decreases edges.len(),
{
    if edges.len() == 0 {
        Ok(nodes)
    } else {
        match add_edges(nodes, edges.drop_last()) {
            Err(e) => Err(e),
            Ok(ns) => {
                let e = edges.last();
                match position(ns, e.node_id) {
                    None => Err(BuildError::NodeNotFound { node_id: e.node_id }),
                    Some(i) => if position(ns, e.input_id) is None {
                        Err(BuildError::InputNotFound { input_id: e.input_id })
                    } else {
                        Ok(ns.update(i, NodeModel { inputs: ns[i].inputs.push(e.input_id), ..ns[i] }))
                    },
                }
            },
        }
    }
}

/// The tree that definitions describe.
pub open spec fn build(defs: Seq<NodeDefinition>, edges: Seq<EdgeDefinition>) -> Result<
    Seq<NodeModel>,
    BuildError,
> {
    match build_nodes(defs) {
        Err(e) => Err(e),
        Ok(nodes) => add_edges(nodes, edges),
    }
}

pub(crate) proof fn lemma_build_nodes_error(defs: Seq<NodeDefinition>, k: int)
    requires
        0 <= k <= defs.len(),
        build_nodes(defs.take(k)) is Err,
    ensures
        build_nodes(defs) == build_nodes(defs.take(k)),
    decreases defs.len(),
{
    if k == defs.len() {
        assert(defs.take(k) =~= defs);
    } else {
        assert(defs.drop_last().take(k) =~= defs.take(k));
        lemma_build_nodes_error(defs.drop_last(), k);
    }
}

pub(crate) proof fn lemma_add_edges_error(nodes: Seq<NodeModel>, edges: Seq<EdgeDefinition>, k: int)
    requires
        0 <= k <= edges.len(),
        add_edges(nodes, edges.take(k)) is Err,
    ensures
        add_edges(nodes, edges) == add_edges(nodes, edges.take(k)),
    decreases edges.len(),
{
    if k == edges.len() {
        assert(edges.take(k) =~= edges);
    } else {
        assert(edges.drop_last().take(k) =~= edges.take(k));
        lemma_add_edges_error(nodes, edges.drop_last(), k);
    }
}

/// A graph of nodes, each reached by its id.
#[derive(Debug)]
pub struct Tree {
    nodes: Vec<Node>,
    index: HashMap<usize, usize>,
}

impl View for Tree {
    type V = Seq<NodeModel>;

    closed spec fn view(&self) -> Seq<NodeModel> {
        self.nodes@.map_values(|n: Node| n@)
    }
}

/// `index` maps each id of `nodes` to the position of its first node.
pub open spec fn indexed(nodes: Seq<NodeModel>, index: Map<usize, usize>) -> bool {
    forall|id: usize| #[trigger]
        index.contains_key(id) == position(nodes, id) is Some && (index.contains_key(id)
            ==> position(nodes, id) == Some(index[id] as int))
}

impl Tree {
    #[verifier::type_invariant]
    spec fn indexed_by_id(self) -> bool {
        indexed(self.nodes@.map_values(|n: Node| n@), self.index@)
    }
}

pub(crate) proof fn lemma_position_bound(nodes: Seq<NodeModel>, id: usize)
    ensures
        position(nodes, id) matches Some(i) ==> 0 <= i < nodes.len() && nodes[i].id == id,
    decreases nodes.len(),
{
    if nodes.len() > 0 && nodes[0].id != id {
        lemma_position_bound(nodes.subrange(1, nodes.len() as int), id);
    }
}

proof fn lemma_position_push(nodes: Seq<NodeModel>, x: NodeModel, id: usize)
    ensures
        position(nodes.push(x), id) == match position(nodes, id) {
            Some(i) => Some(i),
            None => if x.id == id {
                Some(nodes.len() as int)
            } else {
                None
            },
        },
    decreases nodes.len(),
{
    let s = nodes.push(x);
    if nodes.len() == 0 {
        assert(s.subrange(1, s.len() as int) =~= Seq::<NodeModel>::empty());
        assert(position(Seq::<NodeModel>::empty(), id) is None);
        assert(s[0] == x);
    } else if nodes[0].id == id {
        assert(s[0] == nodes[0]);
    } else {
        assert(s[0] == nodes[0]);
        let rest = nodes.subrange(1, nodes.len() as int);
        assert(s.subrange(1, s.len() as int) =~= rest.push(x));
        lemma_position_push(rest, x, id);
        assert(position(s, id) == offset(position(rest.push(x), id), 1));
        assert(position(nodes, id) == offset(position(rest, id), 1));
    }
}

proof fn lemma_position_same_ids(a: Seq<NodeModel>, b: Seq<NodeModel>, id: usize)
    requires
        a.len() == b.len(),
        forall|i: int| 0 <= i < a.len() ==> (#[trigger] a[i]).id == b[i].id,
    ensures
        position(a, id) == position(b, id),
    decreases a.len(),
{
    if a.len() > 0 && a[0].id != id {
        let ra = a.subrange(1, a.len() as int);
        let rb = b.subrange(1, b.len() as int);
        assert forall|i: int| 0 <= i < ra.len() implies (#[trigger] ra[i]).id == rb[i].id by {
            assert(ra[i] == a[i + 1] && rb[i] == b[i + 1]);
        }
        lemma_position_same_ids(ra, rb, id);
    }
}

/// Adds `n` to an indexed arena, indexing its id where it is new.
fn push_indexed(nodes: &mut Vec<Node>, index: &mut HashMap<usize, usize>, n: Node)
    requires
        indexed(old(nodes)@.map_values(|m: Node| m@), old(index)@),
    ensures
        final(nodes)@ == old(nodes)@.push(n),
        indexed(final(nodes)@.map_values(|m: Node| m@), final(index)@),
{
    broadcast use vstd::std_specs::hash::group_hash_axioms;

    let ghost before = nodes@.map_values(|m: Node| m@);
    let ghost nm = n@;
    let id = n.id;
    let fresh = !index.contains_key(&id);
    nodes.push(n);
    let ghost after = nodes@.map_values(|m: Node| m@);
    proof {
        assert(after =~= before.push(nm));
    }
    if fresh {
        index.insert(id, nodes.len() - 1);
    }
    proof {
        assert forall|k: usize| #[trigger]
            index@.contains_key(k) == position(after, k) is Some && (index@.contains_key(k)
                ==> position(after, k) == Some(index@[k] as int)) by {
            lemma_position_push(before, nm, k);
        }
    }
}

fn find(nodes: &Vec<Node>, index: &HashMap<usize, usize>, id: usize) -> (r: Option<usize>)
    requires
        indexed(nodes@.map_values(|n: Node| n@), index@),
    ensures
        match r {
            Some(i) => i < nodes.len() && position(nodes@.map_values(|n: Node| n@), id) == Some(
                i as int,
            ),
            None => position(nodes@.map_values(|n: Node| n@), id) is None,
        },
{
    broadcast use vstd::std_specs::hash::group_hash_axioms;

    proof {
        lemma_position_bound(nodes@.map_values(|n: Node| n@), id);
    }
    match index.get(&id) {
        Some(i) => Some(*i),
        None => None,
    }
}

fn node_from_definition(d: &NodeDefinition) -> (r: Result<Node, BuildError>)
    ensures
        match r {
            Ok(n) => node_of(d.node_id, d.kind, d.value@) == Ok::<NodeModel, BuildError>(n@),
            Err(e) => node_of(d.node_id, d.kind, d.value@) == Err::<NodeModel, BuildError>(e),
        },
{
    let id = d.node_id;
    if d.kind == VARIABLE {
        Node::from_variable(id, d.value.clone())
    } else if d.kind == FORMULA {
        Node::from_formula(id, d.value.as_str())
    } else if d.kind == CONSTANT {
        match parse_scalar(d.value.as_str()) {
            Some(b) => Ok(Node { id, inputs: Vec::new(), kind: NodeKind::Constant(b) }),
            None => Err(BuildError::InvalidLiteral { node_id: id }),
        }
    } else if d.kind == CONSTANT_SEQUENCE {
        match parse_sequence(d.value.as_str()) {
            Some(v) => Ok(Node { id, inputs: Vec::new(), kind: NodeKind::ConstantSequence(v) }),
            None => Err(BuildError::InvalidLiteral { node_id: id }),
        }
    } else if d.kind == EXTERNAL_QUERY {
        Ok(Node { id, inputs: Vec::new(), kind: NodeKind::ExternalQuery(d.value.clone()) })
    } else {
        Err(BuildError::InvalidKind { node_id: id, kind: d.kind })
    }
}

impl Tree {
    /// A tree of the given nodes, looked up by id; where two share an id
    /// the first is found.
    pub fn from_nodes(nodes: Vec<Node>) -> (r: Tree)
        ensures
            r@ == nodes@.map_values(|n: Node| n@),
    {
        broadcast use vstd::std_specs::hash::group_hash_axioms;

        let mut index: HashMap<usize, usize> = HashMap::new();
        let ghost all = nodes@.map_values(|m: Node| m@);
        let mut k: usize = 0;
        proof {
            assert(all.take(0) =~= Seq::<NodeModel>::empty());
        }
        while k < nodes.len()
            invariant
                k <= nodes.len(),
                all == nodes@.map_values(|m: Node| m@),
                indexed(all.take(k as int), index@),
            decreases nodes.len() - k,
        {
            let ghost before = all.take(k as int);
            let ghost old_index = index@;
            let id = nodes[k].id;
            if !index.contains_key(&id) {
                index.insert(id, k);
            }
            proof {
                assert(all.take(k + 1) =~= before.push(all[k as int]));
                assert forall|j: usize| #[trigger]
                    index@.contains_key(j) == position(all.take(k + 1), j) is Some && (index@.contains_key(j)
                        ==> position(all.take(k + 1), j) == Some(index@[j] as int)) by {
                    lemma_position_push(before, all[k as int], j);
                    assert(old_index.contains_key(j) == position(before, j) is Some);
                }
            }
            k = k + 1;
        }
        proof {
            assert(all.take(k as int) =~= all);
        }
        Tree { nodes, index }
    }

    /// Builds the tree that the node and edge definitions describe.
    pub fn new(nodes_definitions: Vec<NodeDefinition>, edge_definitions: Vec<EdgeDefinition>) -> (r:
        Result<Tree, BuildError>)
        ensures
            match r {
                Ok(t) => build(nodes_definitions@, edge_definitions@) == Ok::<
                    Seq<NodeModel>,
                    BuildError,
                >(t@),
                Err(e) => build(nodes_definitions@, edge_definitions@) == Err::<
                    Seq<NodeModel>,
                    BuildError,
                >(e),
            },
    {
        let mut nodes: Vec<Node> = Vec::new();
        let mut index: HashMap<usize, usize> = HashMap::new();
        let mut k: usize = 0;
        proof {
            assert(nodes_definitions@.take(0) =~= Seq::<NodeDefinition>::empty());
            assert(nodes@.map_values(|n: Node| n@) =~= Seq::<NodeModel>::empty());
        }
        while k < nodes_definitions.len()
            invariant
                k <= nodes_definitions.len(),
                build_nodes(nodes_definitions@.take(k as int)) == Ok::<Seq<NodeModel>, BuildError>(
                    nodes@.map_values(|n: Node| n@),
                ),
                indexed(nodes@.map_values(|n: Node| n@), index@),
            decreases nodes_definitions.len() - k,
        {
            let d = &nodes_definitions[k];
            proof {
                assert(nodes_definitions@.take(k + 1).drop_last() =~= nodes_definitions@.take(
                    k as int,
                ));
            }
            if find(&nodes, &index, d.node_id).is_none() {
                match node_from_definition(d) {
                    Ok(n) => {
                        let ghost before = nodes@.map_values(|n: Node| n@);
                        push_indexed(&mut nodes, &mut index, n);
                        proof {
                            assert(nodes@.map_values(|n: Node| n@) =~= before.push(n@));
                        }
                    },
                    Err(e) => {
                        proof {
                            lemma_build_nodes_error(nodes_definitions@, k + 1);
                        }
                        return Err(e);
                    },
                }
            }
            k = k + 1;
        }
        proof {
            assert(nodes_definitions@.take(k as int) =~= nodes_definitions@);
            assert(edge_definitions@.take(0) =~= Seq::<EdgeDefinition>::empty());
        }
        let ghost nodes_built = nodes@.map_values(|n: Node| n@);
        let mut j: usize = 0;
        while j < edge_definitions.len()
            invariant
                j <= edge_definitions.len(),
                build_nodes(nodes_definitions@) == Ok::<Seq<NodeModel>, BuildError>(nodes_built),
                build(nodes_definitions@, edge_definitions@.take(j as int)) == Ok::<
                    Seq<NodeModel>,
                    BuildError,
                >(nodes@.map_values(|n: Node| n@)),
                indexed(nodes@.map_values(|n: Node| n@), index@),
            decreases edge_definitions.len() - j,
        {
            let e = edge_definitions[j];
            proof {
                assert(edge_definitions@.take(j + 1).drop_last() =~= edge_definitions@.take(
                    j as int,
                ));
            }
            let ghost before = nodes@.map_values(|n: Node| n@);
            match find(&nodes, &index, e.node_id) {
                None => {
                    proof {
                        lemma_add_edges_error(nodes_built, edge_definitions@, j + 1);
                    }
                    return Err(BuildError::NodeNotFound { node_id: e.node_id });
                },
                Some(i) => {
                    if find(&nodes, &index, e.input_id).is_none() {
                        proof {
                            lemma_add_edges_error(nodes_built, edge_definitions@, j + 1);
                        }
                        return Err(BuildError::InputNotFound { input_id: e.input_id });
                    }
                    let mut n = nodes.remove(i);
                    n.inputs.push(e.input_id);
                    nodes.insert(i, n);
                    proof {
                        assert(nodes@.map_values(|n: Node| n@) =~= before.update(
                            i as int,
                            NodeModel { inputs: before[i as int].inputs.push(e.input_id), ..before[i as int] },
                        ));
                        let after = nodes@.map_values(|n: Node| n@);
                        assert forall|id: usize| #[trigger] position(after, id) == position(before, id) by {
                            lemma_position_same_ids(after, before, id);
                        }
                    }
                },
            }
            j = j + 1;
        }
        proof {
            assert(edge_definitions@.take(j as int) =~= edge_definitions@);
        }
        Ok(Tree { nodes, index })
    }
}

/// The models of a list of sequences.
pub open spec fn seq_views(v: Seq<Vec<u64>>) -> Seq<Seq<u64>> {
    v.map_values(|x: Vec<u64>| x@)
}

/// When the first `k` inputs do not all succeed in the model, neither do
/// all of them, and for the same reason.
pub(crate) proof fn lemma_eval_inputs_error(
    nodes: Seq<NodeModel>,
    ids: Seq<usize>,
    env: Map<usize, NodeOutput>,
    fuel: nat,
    k: int,
)
    requires
        0 <= k <= ids.len(),
        !(eval_inputs(nodes, ids.take(k), env, fuel) matches Some(Ok(_))),
    ensures
        eval_inputs(nodes, ids, env, fuel) == eval_inputs(nodes, ids.take(k), env, fuel),
    decreases ids.len(),
{
    if k == ids.len() {
        assert(ids.take(k) =~= ids);
    } else {
        assert(ids.drop_last().take(k) =~= ids.take(k));
        lemma_eval_inputs_error(nodes, ids.drop_last(), env, fuel, k);
    }
}

proof fn lemma_inputs_err_grows(
    nodes: Seq<NodeModel>,
    ids: Seq<usize>,
    env: Map<usize, NodeOutput>,
    fuel: nat,
    k: int,
    e: EvalErrorModel,
)
    requires
        0 <= k <= ids.len(),
        inputs_err(nodes, ids.take(k), env, fuel, e),
    ensures
        inputs_err(nodes, ids, env, fuel, e),
    decreases ids.len(),
{
    if k == ids.len() {
        assert(ids.take(k) =~= ids);
    } else {
        assert(ids.drop_last().take(k) =~= ids.take(k));
        lemma_inputs_err_grows(nodes, ids.drop_last(), env, fuel, k, e);
    }
}

/// Turns computed values into an output: none is a failure, one a number.
fn output_of(id: usize, v: Vec<u64>) -> (r: Result<NodeOutput, EvalError>)
    ensures
        agrees(r, collapse(id, v@)),
{
    if v.len() == 0 {
        Err(EvalError::EmptyOutput { node_id: id })
    } else if v.len() == 1 {
        let x = v[0];
        assert(seq![x] =~= v@);
        Ok(NodeOutput::Number(x))
    } else {
        Ok(NodeOutput::NumberArray(v))
    }
}

/// The values that a formula sees at position `p`: each input's value
/// there, and past an input's end its last value.
pub fn position_values(vals: &Vec<Vec<u64>>, p: usize) -> (r: Vec<u64>)
    requires
        forall|k: int| 0 <= k < vals.len() ==> (#[trigger] vals@[k])@.len() > 0,
    ensures
        r@.len() == vals@.len(),
        forall|k: int| 0 <= k < vals.len() ==> #[trigger] r@[k] == pick(vals@[k]@, p as int),
{
    let mut r: Vec<u64> = Vec::new();
    let mut k: usize = 0;
    while k < vals.len()
        invariant
            k <= vals.len(),
            r@.len() == k,
            forall|j: int| 0 <= j < vals.len() ==> (#[trigger] vals@[j])@.len() > 0,
            forall|j: int| 0 <= j < k ==> #[trigger] r@[j] == pick(vals@[j]@, p as int),
        decreases vals.len() - k,
    {
        let vk = &vals[k];
        let x = if p < vk.len() {
            vk[p]
        } else {
            vk[vk.len() - 1]
        };
        r.push(x);
        k = k + 1;
    }
    r
}

/// A context that binds each input's identifier to its value at position
/// `p`, later inputs binding over earlier ones.
pub fn position_context(ids: &Vec<usize>, vals: &Vec<Vec<u64>>, p: usize) -> (r:
    evalexpr::HashMapContext)
    requires
        ids.len() == vals.len(),
        forall|k: int| 0 <= k < vals.len() ==> (#[trigger] vals@[k])@.len() > 0,
    ensures
        context_vars(r) == bindings_at(ids@, seq_views(vals@), p as int),
        builtins_disabled(r),
{
    let ghost vs = seq_views(vals@);
    let xs = position_values(vals, p);
    let mut ctx = new_context();
    disable_builtins(&mut ctx);
    let mut k: usize = 0;
    proof {
        assert(ids@.take(0) =~= Seq::<usize>::empty());
        assert(context_vars(ctx) =~= bindings_at(ids@.take(0), vs, p as int));
    }
    while k < ids.len()
        invariant
            k <= ids.len(),
            ids.len() == vals.len(),
            xs@.len() == vals.len(),
            vs == seq_views(vals@),
            forall|j: int| 0 <= j < vals.len() ==> #[trigger] xs@[j] == pick(vals@[j]@, p as int),
            context_vars(ctx) == bindings_at(ids@.take(k as int), vs, p as int),
            builtins_disabled(ctx),
        decreases ids.len() - k,
    {
        proof {
            assert(ids@.take(k + 1).drop_last() =~= ids@.take(k as int));
            assert(vs[k as int] == vals@[k as int]@);
            assert(xs@[k as int] == pick(vals@[k as int]@, p as int));
        }
        set_number(&mut ctx, identifier(ids[k]), xs[k]);
        k = k + 1;
    }
    proof {
        assert(ids@.take(k as int) =~= ids@);
    }
    ctx
}

/// The output of a formula from its results at each position: the first
/// failure fails the node; otherwise the values, collapsed.
pub fn formula_output(node_id: usize, results: &Vec<Option<u64>>) -> (r: Result<NodeOutput, EvalError>)
    ensures
        agrees(r, formula_result(node_id, results@)),
{
    let mut out: Vec<u64> = Vec::new();
    let mut k: usize = 0;
    while k < results.len()
        invariant
            k <= results.len(),
            out@.len() == k,
            forall|j: int| 0 <= j < k ==> (#[trigger] results@[j]) == Some(out@[j]),
        decreases results.len() - k,
    {
        match results[k] {
            Some(x) => out.push(x),
            None => {
                assert(results@[k as int] is None);
                return Err(EvalError::FormulaFailed { node_id });
            },
        }
        k = k + 1;
    }
    assert(out@ =~= Seq::new(results@.len(), |i: int| results@[i]->0));
    output_of(node_id, out)
}

/// Evaluates a formula at every position of the broadcast length.
fn eval_formula(id: usize, text: &String, ids: &Vec<usize>, vals: &Vec<Vec<u64>>) -> (r: Result<
    NodeOutput,
    EvalError,
>)
    requires
        ids.len() == vals.len(),
        forall|k: int| 0 <= k < vals.len() ==> (#[trigger] vals@[k])@.len() > 0,
    ensures
        broadcast_len(lengths(seq_views(vals@))) == 0 ==> r is Err && r->Err_0@ == (
        EvalErrorModel::EmptyOutput { node_id: id }),
        r matches Ok(o) ==> o.values().len() == broadcast_len(lengths(seq_views(vals@))) && (o is Number
            <==> o.values().len() == 1),
        broadcast_len(lengths(seq_views(vals@))) > 0 && r is Err ==> r->Err_0@ == (
        EvalErrorModel::FormulaFailed { node_id: id }),
{
    let ghost ls = lengths(seq_views(vals@));
    let mut len: usize = 0;
    let mut k: usize = 0;
    proof {
        assert(ls.take(0) =~= Seq::<nat>::empty());
    }
    while k < vals.len()
        invariant
            k <= vals.len(),
            ls == lengths(seq_views(vals@)),
            len == broadcast_len(ls.take(k as int)),
        decreases vals.len() - k,
    {
        proof {
            assert(ls.take(k + 1).drop_last() =~= ls.take(k as int));
            assert(ls[k as int] == vals@[k as int]@.len());
        }
        if vals[k].len() > len {
            len = vals[k].len();
        }
        k = k + 1;
    }
    proof {
        assert(ls.take(k as int) =~= ls);
    }
    let mut results: Vec<Option<u64>> = Vec::new();
    let mut p: usize = 0;
    while p < len
        invariant
            p <= len,
            len == broadcast_len(ls),
            ls == lengths(seq_views(vals@)),
            ids.len() == vals.len(),
            forall|j: int| 0 <= j < vals.len() ==> (#[trigger] vals@[j])@.len() > 0,
            results@.len() == p,
            forall|j: int| 0 <= j < p ==> (#[trigger] results@[j]) is Some,
        decreases len - p,
    {
        let ctx = position_context(ids, vals, p);
        match evaluate_formula(text.as_str(), &ctx) {
            Ok(b) => results.push(Some(b)),
            Err(_) => {
                results.push(None);
                assert(results@[p as int] is None);
                return formula_output(id, &results);
            },
        }
        p = p + 1;
    }
    formula_output(id, &results)
}

impl Tree {
    /// Evaluates node `n`, its inputs looked up in this tree.
    fn eval_at(&self, n: &Node, values: &HashMap<usize, NodeOutput>, fuel: usize) -> (r: Result<
        NodeOutput,
        EvalError,
    >)
        ensures
            sound(r, eval_with(self@, n@, values@, fuel as nat), len_with(self@, n@, values@, fuel as nat)),
            r is Ok ==> !fails_with(self@, n@, values@, fuel as nat),
            r matches Err(e) ==> err_with(self@, n@, values@, fuel as nat, e@),
            r is Ok && own_values(n@) is Some ==> r->Ok_0.values() == own_values(n@)->0,
        decreases fuel, 0nat,
    {
        broadcast use vstd::std_specs::hash::group_hash_axioms;

        if fuel == 0 {
            return Err(EvalError::TooDeep { node_id: n.id });
        }
        if let NodeKind::Variable(name) = &n.kind {
            return match values.get(&n.id) {
                Some(o) => match o {
                    NodeOutput::Number(v) => Ok(NodeOutput::Number(*v)),
                    NodeOutput::NumberArray(v) => output_of(n.id, v.clone()),
                },
                None => Err(EvalError::UnboundVariable { node_id: n.id, name: name.clone() }),
            };
        }
        let vals = match self.eval_all(&n.inputs, values, fuel - 1) {
            Ok(v) => v,
            Err(e) => {
                return Err(e);
            },
        };
        match &n.kind {
            NodeKind::Constant(v) => Ok(NodeOutput::Number(*v)),
            NodeKind::ConstantSequence(s) => output_of(n.id, s.clone()),
            NodeKind::Formula(text) => eval_formula(n.id, text, &n.inputs, &vals),
            NodeKind::ExternalQuery(_) => Err(EvalError::Unsupported { node_id: n.id }),
            NodeKind::Variable(name) => Err(
                EvalError::UnboundVariable { node_id: n.id, name: name.clone() },
            ),
        }
    }

    /// Evaluates the nodes `ids` in order, stopping at the first failure.
    fn eval_all(&self, ids: &Vec<usize>, values: &HashMap<usize, NodeOutput>, fuel: usize) -> (r:
        Result<Vec<Vec<u64>>, EvalError>)
        ensures
            match eval_inputs(self@, ids@, values@, fuel as nat) {
                Some(Ok(m)) => r matches Ok(v) && seq_views(v@) == m,
                Some(Err(f)) => r matches Err(e) && e@ == f,
                None => true,
            },
            r matches Ok(v) ==> v@.len() == ids@.len() && lengths(seq_views(v@)) == lens_inputs(
                self@,
                ids@,
                values@,
                fuel as nat,
            ) && forall|k: int| 0 <= k < v@.len() ==> (#[trigger] v@[k])@.len() > 0,
            r is Ok ==> !any_fails(self@, ids@, values@, fuel as nat),
            r matches Err(e) ==> inputs_err(self@, ids@, values@, fuel as nat, e@),
        decreases fuel, 1nat,
    {
        proof {
            use_type_invariant(self);
        }
        let mut out: Vec<Vec<u64>> = Vec::new();
        let mut k: usize = 0;
        proof {
            assert(ids@.take(0) =~= Seq::<usize>::empty());
            assert(seq_views(out@) =~= Seq::<Seq<u64>>::empty());
            assert(lengths(seq_views(out@)) =~= Seq::<nat>::empty());
        }
        while k < ids.len()
            invariant
                k <= ids.len(),
                out@.len() == k,
                eval_inputs(self@, ids@.take(k as int), values@, fuel as nat) is None
                    || eval_inputs(self@, ids@.take(k as int), values@, fuel as nat) == Some(
                    Ok::<Seq<Seq<u64>>, EvalErrorModel>(seq_views(out@)),
                ),
                lengths(seq_views(out@)) == lens_inputs(self@, ids@.take(k as int), values@, fuel as nat),
                !any_fails(self@, ids@.take(k as int), values@, fuel as nat),
                forall|j: int| 0 <= j < out@.len() ==> (#[trigger] out@[j])@.len() > 0,
            decreases ids.len() - k,
        {
            proof {
                assert(ids@.take(k + 1).drop_last() =~= ids@.take(k as int));
                assert(ids@.take(k + 1).last() == ids@[k as int]);
            }
            proof {
                use_type_invariant(self);
            }
            let r = match find(&self.nodes, &self.index, ids[k]) {
                None => Err(EvalError::NodeNotFound { node_id: ids[k] }),
                Some(i) => {
                    proof {
                        assert(self@[i as int] == self.nodes@[i as int]@);
                    }
                    self.eval_at(&self.nodes[i], values, fuel)
                },
            };
            assert(sound(
                r,
                eval_node(self@, ids@[k as int], values@, fuel as nat),
                len_node(self@, ids@[k as int], values@, fuel as nat),
            ));
            assert(r is Ok ==> !fails_node(self@, ids@[k as int], values@, fuel as nat));
            assert(r matches Err(e) ==> node_err(self@, ids@[k as int], values@, fuel as nat, e@));
            match r {
                Ok(o) => {
                    let ghost ov = o.values();
                    let v = match o {
                        NodeOutput::Number(x) => vec![x],
                        NodeOutput::NumberArray(v) => v,
                    };
                    assert(v@ =~= ov);
                    let ghost before = seq_views(out@);
                    let ghost lbefore = lengths(before);
                    out.push(v);
                    proof {
                        assert(seq_views(out@) =~= before.push(v@));
                        assert(lengths(seq_views(out@)) =~= lbefore.push(v@.len()));
                    }
                },
                Err(e) => {
                    proof {
                        lemma_eval_inputs_error(self@, ids@, values@, fuel as nat, k + 1);
                        assert(inputs_err(self@, ids@.take(k + 1), values@, fuel as nat, e@));
                        lemma_inputs_err_grows(self@, ids@, values@, fuel as nat, k + 1, e@);
                    }
                    return Err(e);
                },
            }
            k = k + 1;
        }
        proof {
            assert(ids@.take(k as int) =~= ids@);
        }
        Ok(out)
    }

    /// Evaluates node `node_id`, with `values` giving the value of each
    /// variable node by id.
    pub fn eval(&self, node_id: usize, values: &HashMap<usize, NodeOutput>) -> (r: Result<
        NodeOutput,
        EvalError,
    >)
        ensures
            sound(r, evaluate(self@, node_id, values@), evaluate_len(self@, node_id, values@)),
            r is Ok ==> !fails_node(self@, node_id, values@, self@.len()),
            r matches Err(e) ==> node_err(self@, node_id, values@, self@.len(), e@),
            r is Ok && lookup(self@, node_id) is Some && own_values(lookup(self@, node_id)->0) is Some
                ==> r->Ok_0.values() == own_values(lookup(self@, node_id)->0)->0,
    {
        proof {
            use_type_invariant(self);
        }
        match find(&self.nodes, &self.index, node_id) {
            None => Err(EvalError::NodeNotFound { node_id }),
            Some(i) => {
                proof {
                    assert(self@[i as int] == self.nodes@[i as int]@);
                    assert(self@.len() == self.nodes@.len());
                }
                self.eval_at(&self.nodes[i], values, self.nodes.len())
            },
        }
    }
}

proof fn lemma_leaves_all_error(nodes: Seq<NodeModel>, ids: Seq<usize>, fuel: nat, k: int)
    requires
        0 <= k <= ids.len(),
        leaves_all(nodes, ids.take(k), fuel) is Err,
    ensures
        leaves_all(nodes, ids, fuel) == leaves_all(nodes, ids.take(k), fuel),
    decreases ids.len(),
{
    if k == ids.len() {
        assert(ids.take(k) =~= ids);
    } else {
        assert(ids.drop_last().take(k) =~= ids.take(k));
        lemma_leaves_all_error(nodes, ids.drop_last(), fuel, k);
    }
}

impl Tree {
    fn leaves_at(&self, n: &Node, fuel: usize) -> (r: Result<Vec<usize>, EvalError>)
        ensures
            match r {
                Ok(v) => leaves_with(self@, n@, fuel as nat) == Ok::<Seq<usize>, EvalError>(v@),
                Err(e) => leaves_with(self@, n@, fuel as nat) == Err::<Seq<usize>, EvalError>(e),
            },
        decreases fuel, 0nat,
    {
        if fuel == 0 {
            return Err(EvalError::TooDeep { node_id: n.id });
        }
        if n.inputs.len() == 0 {
            let v = vec![n.id];
            assert(v@ =~= seq![n.id]);
            return Ok(v);
        }
        let mut out: Vec<usize> = Vec::new();
        let mut k: usize = 0;
        let ghost f = (fuel - 1) as nat;
        let ids = &n.inputs;
        proof {
            assert(ids@.take(0) =~= Seq::<usize>::empty());
        }
        while k < ids.len()
            invariant
                k <= ids.len(),
                fuel > 0,
                f == fuel - 1,
                ids@ == n@.inputs,
                n@.inputs.len() > 0,
                leaves_all(self@, ids@.take(k as int), f) == Ok::<Seq<usize>, EvalError>(out@),
            decreases ids.len() - k,
        {
            proof {
                assert(ids@.take(k + 1).drop_last() =~= ids@.take(k as int));
                assert(ids@.take(k + 1).last() == ids@[k as int]);
            }
            proof {
                use_type_invariant(self);
            }
            let r = match find(&self.nodes, &self.index, ids[k]) {
                None => Err(EvalError::NodeNotFound { node_id: ids[k] }),
                Some(i) => {
                    proof {
                        assert(self@[i as int] == self.nodes@[i as int]@);
                    }
                    self.leaves_at(&self.nodes[i], fuel - 1)
                },
            };
            assert(match r {
                Ok(b) => leaves_of(self@, ids@[k as int], f) == Ok::<Seq<usize>, EvalError>(b@),
                Err(e) => leaves_of(self@, ids@[k as int], f) == Err::<Seq<usize>, EvalError>(e),
            });
            match r {
                Ok(b) => {
                    let ghost before = out@;
                    let ghost bv = b@;
                    let mut b = b;
                    out.append(&mut b);
                    proof {
                        assert(out@ =~= before + bv);
                        assert(leaves_all(self@, ids@.take(k + 1), f) == Ok::<Seq<usize>, EvalError>(
                            out@,
                        ));
                    }
                },
                Err(e) => {
                    proof {
                        lemma_leaves_all_error(self@, ids@, f, k + 1);
                        assert(leaves_with(self@, n@, fuel as nat) == leaves_all(self@, ids@, f));
                    }
                    return Err(e);
                },
            }
            k = k + 1;
        }
        proof {
            assert(ids@.take(k as int) =~= ids@);
        }
        Ok(out)
    }

    /// The names of the variables that node `node_id` depends on, in the
    /// order in which its leaves are reached.
    pub fn node_inputs(&self, node_id: usize) -> (r: Result<Vec<String>, EvalError>)
        ensures
            match r {
                Ok(v) => exists|l: Seq<usize>|
                    leaves_of(self@, node_id, self@.len()) == Ok::<Seq<usize>, EvalError>(l)
                        && v@.map_values(|s: String| s@) == variable_names(self@, l),
                Err(e) => leaves_of(self@, node_id, self@.len()) == Err::<Seq<usize>, EvalError>(e),
            },
    {
        proof {
            use_type_invariant(self);
        }
        let leaves = match find(&self.nodes, &self.index, node_id) {
            None => {
                return Err(EvalError::NodeNotFound { node_id });
            },
            Some(i) => {
                proof {
                    assert(self@[i as int] == self.nodes@[i as int]@);
                    assert(self@.len() == self.nodes@.len());
                }
                match self.leaves_at(&self.nodes[i], self.nodes.len()) {
                    Ok(l) => l,
                    Err(e) => {
                        return Err(e);
                    },
                }
            },
        };
        let mut names: Vec<String> = Vec::new();
        let mut k: usize = 0;
        proof {
            assert(leaves@.take(0) =~= Seq::<usize>::empty());
            assert(names@.map_values(|s: String| s@) =~= Seq::<Seq<char>>::empty());
        }
        while k < leaves.len()
            invariant
                k <= leaves.len(),
                variable_names(self@, leaves@.take(k as int)) == names@.map_values(|s: String| s@),
            decreases leaves.len() - k,
        {
            proof {
                assert(leaves@.take(k + 1).drop_last() =~= leaves@.take(k as int));
                assert(leaves@.take(k + 1).last() == leaves@[k as int]);
            }
            let ghost before = names@.map_values(|s: String| s@);
            proof {
                use_type_invariant(self);
            }
            if let Some(i) = find(&self.nodes, &self.index, leaves[k]) {
                proof {
                    assert(self@[i as int] == self.nodes@[i as int]@);
                }
                if let NodeKind::Variable(name) = &self.nodes[i].kind {
                    names.push(name.clone());
                    proof {
                        assert(names@.map_values(|s: String| s@) =~= before.push(name@));
                    }
                }
            }
            k = k + 1;
        }
        proof {
            assert(leaves@.take(k as int) =~= leaves@);
        }
        Ok(names)
    }
}

impl Node {
    /// Evaluates this node, its inputs looked up in `tree`.
    pub fn eval(&self, tree: &Tree, values: &HashMap<usize, NodeOutput>) -> (r: Result<
        NodeOutput,
        EvalError,
    >)
        ensures
            sound(
                r,
                eval_with(tree@, self@, values@, detached_fuel(tree@.len())),
                len_with(tree@, self@, values@, detached_fuel(tree@.len())),
            ),
            r is Ok ==> !fails_with(tree@, self@, values@, detached_fuel(tree@.len())),
            r matches Err(e) ==> err_with(tree@, self@, values@, detached_fuel(tree@.len()), e@),
            r is Ok && own_values(self@) is Some ==> r->Ok_0.values() == own_values(self@)->0,
    {
        let n = tree.nodes.len();
        proof {
            assert(tree@.len() == n);
        }
        let fuel = if n < usize::MAX {
            n + 1
        } else {
            n
        };
        tree.eval_at(self, values, fuel)
    }

    /// Evaluates this node without variable values.
    pub fn compute(&self, tree: &Tree) -> (r: Result<NodeOutput, EvalError>)
        ensures
            sound(
                r,
                eval_with(tree@, self@, Map::empty(), detached_fuel(tree@.len())),
                len_with(tree@, self@, Map::empty(), detached_fuel(tree@.len())),
            ),
            r is Ok ==> !fails_with(tree@, self@, Map::empty(), detached_fuel(tree@.len())),
            r matches Err(e) ==> err_with(tree@, self@, Map::empty(), detached_fuel(tree@.len()), e@),
            r is Ok && own_values(self@) is Some ==> r->Ok_0.values() == own_values(self@)->0,
    {
        let values: HashMap<usize, NodeOutput> = HashMap::new();
        self.eval(tree, &values)
    }

    /// The ids of the nodes without inputs that this node reaches, with
    /// repeats; itself when it has no inputs.
    pub fn inputs(&self, tree: &Tree) -> (r: Result<Vec<usize>, EvalError>)
        ensures
            match r {
                Ok(v) => leaves_with(tree@, self@, detached_fuel(tree@.len())) == Ok::<
                    Seq<usize>,
                    EvalError,
                >(v@),
                Err(e) => leaves_with(tree@, self@, detached_fuel(tree@.len())) == Err::<
                    Seq<usize>,
                    EvalError,
                >(e),
            },
    {
        let n = tree.nodes.len();
        proof {
            assert(tree@.len() == n);
        }
        let fuel = if n < usize::MAX {
            n + 1
        } else {
            n
        };
        tree.leaves_at(self, fuel)
    }
}

} // verus!
