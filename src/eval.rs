//! What evaluating a node yields, stated over the nodes' models.
//!
//! A formula's values come from the expression evaluator, whose results
//! are not a function of its arguments (the precision of its math functions
//! varies by platform). So the model of a result is `None` where such a call
//! decides it; what holds of every outcome is stated beside it: the length
//! of a successful output, and the errors that come before any call.
use vstd::prelude::*;
use crate::node::{EvalError, EvalErrorModel, KindModel, NodeModel, NodeOutput};
use crate::text::ident;
use crate::tree::lookup;

verus! {

/// A computed sequence as an output: empty is a failure.
pub open spec fn collapse(id: usize, s: Seq<u64>) -> Result<Seq<u64>, EvalErrorModel> {
    if s.len() == 0 {
        Err(EvalErrorModel::EmptyOutput { node_id: id })
    } else {
        Ok(s)
    }
}

/// The value of `vals` at position `p`; past its end, its last value.
pub open spec fn pick(vals: Seq<u64>, p: int) -> u64 {
    if p < vals.len() {
        vals[p]
    } else {
        vals.last()
    }
}

/// The largest of the lengths, 0 when there are none.
pub open spec fn broadcast_len(lens: Seq<nat>) -> nat
    decreases lens.len(),
{
    if lens.len() == 0 {
        0
    } else {
        let m = broadcast_len(lens.drop_last());
        if lens.last() > m {
            lens.last()
        } else {
            m
        }
    }
}

/// The lengths of the sequences.
pub open spec fn lengths(vals: Seq<Seq<u64>>) -> Seq<nat> {
    Seq::new(vals.len(), |i: int| vals[i].len())
}

/// The variables of a formula at position `p`: each input's identifier
/// bound to its value there, later inputs binding over earlier ones.
pub open spec fn bindings_at(ids: Seq<usize>, vals: Seq<Seq<u64>>, p: int) -> Map<Seq<char>, u64>
    decreases ids.len(),
{
    if ids.len() == 0 {
        Map::empty()
    } else {
        bindings_at(ids.drop_last(), vals, p).insert(
            ident(ids.last()),
            pick(vals[ids.len() - 1], p),
        )
    }
}

/// The output of a formula from its results at each position: any failure
/// fails the node, and no position at all is an empty output.
pub open spec fn formula_result(id: usize, results: Seq<Option<u64>>) -> Result<Seq<u64>, EvalErrorModel> {
    if exists|i: int| 0 <= i < results.len() && (#[trigger] results[i]) is None {
        Err(EvalErrorModel::FormulaFailed { node_id: id })
    } else {
        collapse(id, Seq::new(results.len(), |i: int| results[i]->0))
    }
}

/// What node `n` yields from its inputs' values `vals`; `None` where the
/// expression evaluator decides.
pub open spec fn combine(n: NodeModel, vals: Seq<Seq<u64>>) -> Option<Result<Seq<u64>, EvalErrorModel>> {
    match n.kind {
        KindModel::Constant(v) => Some(Ok(seq![v])),
        KindModel::ConstantSequence(s) => Some(collapse(n.id, s)),
        KindModel::Formula(_) => if broadcast_len(lengths(vals)) == 0 {
            Some(Err(EvalErrorModel::EmptyOutput { node_id: n.id }))
        } else {
            None
        },
        KindModel::ExternalQuery(_) => Some(Err(EvalErrorModel::Unsupported { node_id: n.id })),
        KindModel::Variable(name) => Some(
            Err(EvalErrorModel::UnboundVariable { node_id: n.id, name }),
        ),
    }
}

/// What node `n` yields, its inputs looked up in `nodes`; `fuel` bounds the
/// depth of the recursion.
pub open spec fn eval_with(
    nodes: Seq<NodeModel>,
    n: NodeModel,
    env: Map<usize, NodeOutput>,
    fuel: nat,
) -> Option<Result<Seq<u64>, EvalErrorModel>>
    decreases fuel, 0nat, 0nat,
{
    if fuel == 0 {
        Some(Err(EvalErrorModel::TooDeep { node_id: n.id }))
    } else if let KindModel::Variable(name) = n.kind {
        if env.contains_key(n.id) {
            Some(collapse(n.id, env[n.id].values()))
        } else {
            Some(Err(EvalErrorModel::UnboundVariable { node_id: n.id, name }))
        }
    } else {
        match eval_inputs(nodes, n.inputs, env, (fuel - 1) as nat) {
            None => None,
            Some(Err(e)) => Some(Err(e)),
            Some(Ok(vals)) => combine(n, vals),
        }
    }
}

/// What the node with id `id` yields.
pub open spec fn eval_node(nodes: Seq<NodeModel>, id: usize, env: Map<usize, NodeOutput>, fuel: nat) -> Option<
    Result<Seq<u64>, EvalErrorModel>,
>
    decreases fuel, 0nat, 1nat,
{
    match lookup(nodes, id) {
        None => Some(Err(EvalErrorModel::NodeNotFound { node_id: id })),
        Some(n) => eval_with(nodes, n, env, fuel),
    }
}

/// The outputs of the nodes `ids`, in order; the first failure in order
/// fails them all.
pub open spec fn eval_inputs(
    nodes: Seq<NodeModel>,
    ids: Seq<usize>,
    env: Map<usize, NodeOutput>,
    fuel: nat,
) -> Option<Result<Seq<Seq<u64>>, EvalErrorModel>>
    decreases fuel, 1nat, ids.len(),
{
    if ids.len() == 0 {
        Some(Ok(Seq::empty()))
    } else {
        match eval_inputs(nodes, ids.drop_last(), env, fuel) {
            None => None,
            Some(Err(e)) => Some(Err(e)),
            Some(Ok(vs)) => match eval_node(nodes, ids.last(), env, fuel) {
                None => None,
                Some(Err(e)) => Some(Err(e)),
                Some(Ok(v)) => Some(Ok(vs.push(v))),
            },
        }
    }
}

/// The length of node `n`'s output, where it succeeds: a formula's is its
/// broadcast length, the largest of its inputs' lengths.
pub open spec fn len_with(nodes: Seq<NodeModel>, n: NodeModel, env: Map<usize, NodeOutput>, fuel: nat) -> nat
    decreases fuel, 0nat, 0nat,
{
    if fuel == 0 {
        0
    } else {
        match n.kind {
            KindModel::Variable(_) => if env.contains_key(n.id) {
                env[n.id].values().len()
            } else {
                0
            },
            KindModel::Constant(_) => 1,
            KindModel::ConstantSequence(s) => s.len(),
            KindModel::Formula(_) => broadcast_len(lens_inputs(nodes, n.inputs, env, (fuel - 1) as nat)),
            KindModel::ExternalQuery(_) => 0,
        }
    }
}

/// The length of the output of the node with id `id`.
pub open spec fn len_node(nodes: Seq<NodeModel>, id: usize, env: Map<usize, NodeOutput>, fuel: nat) -> nat
    decreases fuel, 0nat, 1nat,
{
    match lookup(nodes, id) {
        None => 0,
        Some(n) => len_with(nodes, n, env, fuel),
    }
}

/// The lengths of the outputs of the nodes `ids`.
pub open spec fn lens_inputs(nodes: Seq<NodeModel>, ids: Seq<usize>, env: Map<usize, NodeOutput>, fuel: nat) -> Seq<
    nat,
>
    decreases fuel, 1nat, ids.len(),
{
    if ids.len() == 0 {
        Seq::empty()
    } else {
        lens_inputs(nodes, ids.drop_last(), env, fuel).push(len_node(nodes, ids.last(), env, fuel))
    }
}

/// Whether node `n` fails whatever the expression evaluator returns: a
/// variable without a value (or with no values), an external query, a
/// constant sequence without values, a formula without inputs, too deep a
/// recursion, or any kind but a variable over an input that fails so.
pub open spec fn fails_with(nodes: Seq<NodeModel>, n: NodeModel, env: Map<usize, NodeOutput>, fuel: nat) -> bool
    decreases fuel, 0nat, 0nat,
{
    if fuel == 0 {
        true
    } else {
        match n.kind {
            KindModel::Variable(_) => !env.contains_key(n.id) || env[n.id].values().len() == 0,
            KindModel::Constant(_) => any_fails(nodes, n.inputs, env, (fuel - 1) as nat),
            KindModel::ConstantSequence(s) => s.len() == 0 || any_fails(
                nodes,
                n.inputs,
                env,
                (fuel - 1) as nat,
            ),
            KindModel::Formula(_) => n.inputs.len() == 0 || any_fails(
                nodes,
                n.inputs,
                env,
                (fuel - 1) as nat,
            ),
            KindModel::ExternalQuery(_) => true,
        }
    }
}

/// Whether the node with id `id` fails whatever the expression evaluator
/// returns; a missing node does.
pub open spec fn fails_node(nodes: Seq<NodeModel>, id: usize, env: Map<usize, NodeOutput>, fuel: nat) -> bool
    decreases fuel, 0nat, 1nat,
{
    match lookup(nodes, id) {
        None => true,
        Some(n) => fails_with(nodes, n, env, fuel),
    }
}

/// Whether one of the nodes `ids` fails whatever the evaluator returns.
pub open spec fn any_fails(nodes: Seq<NodeModel>, ids: Seq<usize>, env: Map<usize, NodeOutput>, fuel: nat) -> bool
    decreases fuel, 1nat, ids.len(),
{
    ids.len() > 0 && (any_fails(nodes, ids.drop_last(), env, fuel) || fails_node(
        nodes,
        ids.last(),
        env,
        fuel,
    ))
}

/// The error that node `n` itself gives once its inputs have succeeded
/// with lengths `lens`: for a formula over positions, the only error left
/// is the evaluator's failure.
pub open spec fn own_error(n: NodeModel, lens: Seq<nat>, e: EvalErrorModel) -> bool {
    match n.kind {
        KindModel::Constant(_) => false,
        KindModel::ConstantSequence(s) => s.len() == 0 && e == (EvalErrorModel::EmptyOutput {
            node_id: n.id,
        }),
        KindModel::Formula(_) => if broadcast_len(lens) == 0 {
            e == (EvalErrorModel::EmptyOutput { node_id: n.id })
        } else {
            e == (EvalErrorModel::FormulaFailed { node_id: n.id })
        },
        KindModel::ExternalQuery(_) => e == (EvalErrorModel::Unsupported { node_id: n.id }),
        KindModel::Variable(_) => false,
    }
}

/// Whether evaluating node `n` may fail with `e`: an error of an input
/// after inputs that may all succeed, or the node's own error after all of
/// them.
pub open spec fn err_with(
    nodes: Seq<NodeModel>,
    n: NodeModel,
    env: Map<usize, NodeOutput>,
    fuel: nat,
    e: EvalErrorModel,
) -> bool
    decreases fuel, 0nat, 0nat,
{
    if fuel == 0 {
        e == (EvalErrorModel::TooDeep { node_id: n.id })
    } else if n.kind is Variable {
        eval_with(nodes, n, env, fuel) == Some(Err::<Seq<u64>, EvalErrorModel>(e))
    } else {
        let f = (fuel - 1) as nat;
        inputs_err(nodes, n.inputs, env, f, e) || (!any_fails(nodes, n.inputs, env, f) && own_error(
            n,
            lens_inputs(nodes, n.inputs, env, f),
            e,
        ))
    }
}

/// Whether evaluating the node with id `id` may fail with `e`.
pub open spec fn node_err(nodes: Seq<NodeModel>, id: usize, env: Map<usize, NodeOutput>, fuel: nat, e: EvalErrorModel) -> bool
    decreases fuel, 0nat, 1nat,
{
    match lookup(nodes, id) {
        None => e == (EvalErrorModel::NodeNotFound { node_id: id }),
        Some(n) => err_with(nodes, n, env, fuel, e),
    }
}

/// Whether evaluating the nodes `ids` in order may stop with `e`.
pub open spec fn inputs_err(
    nodes: Seq<NodeModel>,
    ids: Seq<usize>,
    env: Map<usize, NodeOutput>,
    fuel: nat,
    e: EvalErrorModel,
) -> bool
    decreases fuel, 1nat, ids.len(),
{
    ids.len() > 0 && (inputs_err(nodes, ids.drop_last(), env, fuel, e) || (!any_fails(
        nodes,
        ids.drop_last(),
        env,
        fuel,
    ) && node_err(nodes, ids.last(), env, fuel, e)))
}

/// The values that a constant node yields whatever its inputs are.
pub open spec fn own_values(n: NodeModel) -> Option<Seq<u64>> {
    match n.kind {
        KindModel::Constant(v) => Some(seq![v]),
        KindModel::ConstantSequence(s) => Some(s),
        _ => None,
    }
}

/// What evaluating node `id` of a tree yields: the depth is bounded by the
/// number of nodes, which only a cycle exceeds.
pub open spec fn evaluate(nodes: Seq<NodeModel>, id: usize, env: Map<usize, NodeOutput>) -> Option<
    Result<Seq<u64>, EvalErrorModel>,
> {
    eval_node(nodes, id, env, nodes.len())
}

/// The length of node `id`'s output in a tree, where it succeeds.
pub open spec fn evaluate_len(nodes: Seq<NodeModel>, id: usize, env: Map<usize, NodeOutput>) -> nat {
    len_node(nodes, id, env, nodes.len())
}

/// An output agrees with a model result: the same values, a number exactly
/// when there is one value; or the same error.
pub open spec fn agrees(r: Result<NodeOutput, EvalError>, m: Result<Seq<u64>, EvalErrorModel>) -> bool {
    match (r, m) {
        (Ok(o), Ok(s)) => o.values() == s && (o is Number <==> s.len() == 1),
        (Err(e), Err(f)) => e@ == f,
        _ => false,
    }
}

/// What an evaluation result meets whatever the expression evaluator
/// returns: the model where it decides the result, and otherwise an output
/// of `len` values, a number exactly when there is one.
pub open spec fn sound(r: Result<NodeOutput, EvalError>, m: Option<Result<Seq<u64>, EvalErrorModel>>, len: nat) -> bool {
    &&& (m matches Some(x) ==> agrees(r, x))
    &&& (r matches Ok(o) ==> o.values().len() == len && len >= 1 && (o is Number <==> len == 1))
}

/// The depth allowed to a node evaluated against a tree of `n` nodes.
pub open spec fn detached_fuel(n: nat) -> nat {
    if n < usize::MAX { n + 1 } else { n }
}

/// The ids of the nodes without inputs that `n` reaches, depth first and
/// in input order, with repeats; a node without inputs reaches itself.
pub open spec fn leaves_with(nodes: Seq<NodeModel>, n: NodeModel, fuel: nat) -> Result<
    Seq<usize>,
    EvalError,
>
    decreases fuel, 0nat, 0nat,
{
    if fuel == 0 {
        Err(EvalError::TooDeep { node_id: n.id })
    } else if n.inputs.len() == 0 {
        Ok(seq![n.id])
    } else {
        leaves_all(nodes, n.inputs, (fuel - 1) as nat)
    }
}

/// The leaves that the node with id `id` reaches.
pub open spec fn leaves_of(nodes: Seq<NodeModel>, id: usize, fuel: nat) -> Result<Seq<usize>, EvalError>
    decreases fuel, 0nat, 1nat,
{
    match lookup(nodes, id) {
        None => Err(EvalError::NodeNotFound { node_id: id }),
        Some(n) => leaves_with(nodes, n, fuel),
    }
}

/// The leaves that the nodes `ids` reach, one after the other.
pub open spec fn leaves_all(nodes: Seq<NodeModel>, ids: Seq<usize>, fuel: nat) -> Result<
    Seq<usize>,
    EvalError,
>
    decreases fuel, 1nat, ids.len(),
{
    if ids.len() == 0 {
        Ok(Seq::empty())
    } else {
        match leaves_all(nodes, ids.drop_last(), fuel) {
            Err(e) => Err(e),
            Ok(a) => match leaves_of(nodes, ids.last(), fuel) {
                Err(e) => Err(e),
                Ok(b) => Ok(a + b),
            },
        }
    }
}

/// The names of the variable nodes among `ids`, in order.
pub open spec fn variable_names(nodes: Seq<NodeModel>, ids: Seq<usize>) -> Seq<Seq<char>>
    decreases ids.len(),
{
    if ids.len() == 0 {
        Seq::empty()
    } else {
        let rest = variable_names(nodes, ids.drop_last());
        match lookup(nodes, ids.last()) {
            Some(n) => match n.kind {
                KindModel::Variable(name) => rest.push(name),
                _ => rest,
            },
            None => rest,
        }
    }
}

} // verus!
