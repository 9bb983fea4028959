//! Definitions from the rows of a store of nodes and edges.
use vstd::prelude::*;
use crate::node::{EdgeDefinition, NodeDefinition};

verus! {

/// Why stored rows do not describe definitions.
#[derive(Debug, Clone, Copy, PartialEq, Eq, Structural)]
pub enum RowError {
    /// A stored id or kind is negative or does not fit in `usize`.
    InvalidId { value: i64 },
}

/// The `usize` that a stored integer denotes, if any.
pub open spec fn id_of(v: i64) -> Option<usize> {
    if 0 <= v && v <= usize::MAX {
        Some(v as usize)
    } else {
        None
    }
}

fn to_id(v: i64) -> (r: Result<usize, RowError>)
    ensures
        match r {
            Ok(u) => id_of(v) == Some(u),
            Err(e) => id_of(v) is None && e == (RowError::InvalidId { value: v }),
        },
{
    if v < 0 || v as u64 > usize::MAX as u64 {
        Err(RowError::InvalidId { value: v })
    } else {
        Ok(v as usize)
    }
}

/// The ids that the edges name, each once, in order of first appearance:
/// node before input.
pub open spec fn edge_ids(edges: Seq<EdgeDefinition>) -> Seq<usize>
    decreases edges.len(),
{
    if edges.len() == 0 {
        Seq::empty()
    } else {
        let r = edge_ids(edges.drop_last());
        let e = edges.last();
        let r1 = if r.contains(e.node_id) { r } else { r.push(e.node_id) };
        if r1.contains(e.input_id) { r1 } else { r1.push(e.input_id) }
    }
}

fn push_new(ids: &mut Vec<usize>, id: usize)
    ensures
        final(ids)@ == if old(ids)@.contains(id) { old(ids)@ } else { old(ids)@.push(id) },
{
    let mut k: usize = 0;
    while k < ids.len()
        invariant
            k <= ids.len(),
            forall|j: int| 0 <= j < k ==> ids@[j] != id,
        decreases ids.len() - k,
    {
        if ids[k] == id {
            return;
        }
        k = k + 1;
    }
    ids.push(id);
}

/// The edge definitions of stored `(node_id, input_id)` rows, in order, and
/// the ids they name.
pub fn edges_from_rows(rows: &Vec<(i64, i64)>) -> (r: Result<
    (Vec<EdgeDefinition>, Vec<usize>),
    RowError,
>)
    ensures
        match r {
            Ok((edges, ids)) => edges@.len() == rows@.len() && (forall|i: int|
                0 <= i < rows@.len() ==> id_of((#[trigger] rows@[i]).0) == Some(edges@[i].node_id)
                    && id_of(rows@[i].1) == Some(edges@[i].input_id)) && ids@ == edge_ids(edges@),
            Err(RowError::InvalidId { value }) => exists|i: int|
                0 <= i < rows@.len() && (id_of((#[trigger] rows@[i]).0) is None && value == rows@[i].0
                    || id_of(rows@[i].1) is None && value == rows@[i].1),
        },
{
    let mut edges: Vec<EdgeDefinition> = Vec::new();
    let mut ids: Vec<usize> = Vec::new();
    let mut k: usize = 0;
    proof {
        assert(edges@.take(0) =~= Seq::<EdgeDefinition>::empty());
    }
    while k < rows.len()
        invariant
            k <= rows.len(),
            edges@.len() == k,
            forall|i: int| 0 <= i < k ==> id_of((#[trigger] rows@[i]).0) == Some(edges@[i].node_id)
                && id_of(rows@[i].1) == Some(edges@[i].input_id),
            ids@ == edge_ids(edges@),
        decreases rows.len() - k,
    {
        let (a, b) = rows[k];
        let node_id = match to_id(a) {
            Ok(u) => u,
            Err(e) => {
                return Err(e);
            },
        };
        let input_id = match to_id(b) {
            Ok(u) => u,
            Err(e) => {
                return Err(e);
            },
        };
        let ghost before = edges@;
        edges.push(EdgeDefinition { node_id, input_id });
        proof {
            assert(edges@.drop_last() =~= before);
        }
        push_new(&mut ids, node_id);
        push_new(&mut ids, input_id);
        k = k + 1;
    }
    Ok((edges, ids))
}

/// The node definitions of stored `(node_id, kind, value)` rows, in order.
pub fn nodes_from_rows(rows: Vec<(i64, i64, String)>) -> (r: Result<Vec<NodeDefinition>, RowError>)
    ensures
        match r {
            Ok(defs) => defs@.len() == rows@.len() && forall|i: int|
                0 <= i < rows@.len() ==> id_of((#[trigger] rows@[i]).0) == Some(defs@[i].node_id)
                    && id_of(rows@[i].1) == Some(defs@[i].kind) && defs@[i].value@ == rows@[i].2@,
            Err(RowError::InvalidId { value }) => exists|i: int|
                0 <= i < rows@.len() && (id_of((#[trigger] rows@[i]).0) is None && value == rows@[i].0
                    || id_of(rows@[i].1) is None && value == rows@[i].1),
        },
{
    let mut defs: Vec<NodeDefinition> = Vec::new();
    let mut k: usize = 0;
    while k < rows.len()
        invariant
            k <= rows.len(),
            defs@.len() == k,
            forall|i: int| 0 <= i < k ==> id_of((#[trigger] rows@[i]).0) == Some(defs@[i].node_id)
                && id_of(rows@[i].1) == Some(defs@[i].kind) && defs@[i].value@ == rows@[i].2@,
        decreases rows.len() - k,
    {
        let node_id = match to_id(rows[k].0) {
            Ok(u) => u,
            Err(e) => {
                return Err(e);
            },
        };
        let kind = match to_id(rows[k].1) {
            Ok(u) => u,
            Err(e) => {
                return Err(e);
            },
        };
        let value = rows[k].2.clone();
        defs.push(NodeDefinition { node_id, value, kind });
        k = k + 1;
    }
    Ok(defs)
}

} // verus!
