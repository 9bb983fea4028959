//! Nodes, their definitions and the errors of building and evaluating.
use vstd::prelude::*;
use crate::formula::{check_formula, formula_parses};

verus! {

/// The kind discriminator of a variable node.
pub const VARIABLE: usize = 0;
/// The kind discriminator of a formula node.
pub const FORMULA: usize = 1;
/// The kind discriminator of a constant node.
pub const CONSTANT: usize = 2;
/// The kind discriminator of a constant-sequence node.
pub const CONSTANT_SEQUENCE: usize = 3;
/// The kind discriminator of an external-query node.
pub const EXTERNAL_QUERY: usize = 4;

/// What a node computes. Numbers are bit patterns of binary64 values.
#[derive(Debug, Clone)]
pub enum NodeKind {
    /// A value supplied at evaluation time, under the node's id.
    Variable(String),
    /// An expression over the synthetic identifiers of the node's inputs.
    Formula(String),
    /// A fixed number.
    Constant(u64),
    /// A fixed sequence of numbers.
    ConstantSequence(Vec<u64>),
    /// A query against an external dataset; not supported by evaluation.
    ExternalQuery(String),
}

/// The mathematical form of a [`NodeKind`].
pub ghost enum KindModel {
    Variable(Seq<char>),
    Formula(Seq<char>),
    Constant(u64),
    ConstantSequence(Seq<u64>),
    ExternalQuery(Seq<char>),
}

impl View for NodeKind {
    type V = KindModel;

    open spec fn view(&self) -> KindModel {
        match self {
            NodeKind::Variable(s) => KindModel::Variable(s@),
            NodeKind::Formula(s) => KindModel::Formula(s@),
            NodeKind::Constant(v) => KindModel::Constant(*v),
            NodeKind::ConstantSequence(v) => KindModel::ConstantSequence(v@),
            NodeKind::ExternalQuery(s) => KindModel::ExternalQuery(s@),
        }
    }
}

/// The result of evaluating a node: one number, or a sequence of them.
#[derive(Debug, Clone, PartialEq)]
pub enum NodeOutput {
    NumberArray(Vec<u64>),
    Number(u64),
}

impl NodeOutput {
    /// The output as a sequence: a number is a sequence of one.
    pub open spec fn values(self) -> Seq<u64> {
        match self {
            NodeOutput::NumberArray(v) => v@,
            NodeOutput::Number(v) => seq![v],
        }
    }
}

/// `input_id`'s output is appended to `node_id`'s inputs.
#[derive(Debug, Clone, Copy, PartialEq, Eq, Structural)]
pub struct EdgeDefinition {
    pub node_id: usize,
    pub input_id: usize,
}

/// A node as stored: a kind discriminator and the text of its value.
#[derive(Debug, Clone)]
pub struct NodeDefinition {
    pub node_id: usize,
    pub value: String,
    pub kind: usize,
}

/// A node of a tree; `inputs` holds the ids of its inputs, in order.
#[derive(Debug, Clone)]
pub struct Node {
    pub id: usize,
    pub inputs: Vec<usize>,
    pub kind: NodeKind,
}

/// The mathematical form of a [`Node`].
pub ghost struct NodeModel {
    pub id: usize,
    pub inputs: Seq<usize>,
    pub kind: KindModel,
}

impl View for Node {
    type V = NodeModel;

    open spec fn view(&self) -> NodeModel {
        NodeModel { id: self.id, inputs: self.inputs@, kind: self.kind@ }
    }
}

/// Why a tree could not be built.
#[derive(Debug, Clone, Copy, PartialEq, Eq, Structural)]
pub enum BuildError {
    InvalidKind { node_id: usize, kind: usize },
    NodeNotFound { node_id: usize },
    InputNotFound { input_id: usize },
    InvalidFormula { node_id: usize },
    InvalidLiteral { node_id: usize },
}

/// Why a node could not be evaluated.
#[derive(Debug, Clone, PartialEq, Eq)]
pub enum EvalError {
    NodeNotFound { node_id: usize },
    UnboundVariable { node_id: usize, name: String },
    FormulaFailed { node_id: usize },
    Unsupported { node_id: usize },
    EmptyOutput { node_id: usize },
    TooDeep { node_id: usize },
}

/// The mathematical form of an [`EvalError`].
pub ghost enum EvalErrorModel {
    NodeNotFound { node_id: usize },
    UnboundVariable { node_id: usize, name: Seq<char> },
    FormulaFailed { node_id: usize },
    Unsupported { node_id: usize },
    EmptyOutput { node_id: usize },
    TooDeep { node_id: usize },
}

impl View for EvalError {
    type V = EvalErrorModel;

    open spec fn view(&self) -> EvalErrorModel {
        match self {
            EvalError::NodeNotFound { node_id } => EvalErrorModel::NodeNotFound { node_id: *node_id },
            EvalError::UnboundVariable { node_id, name } => EvalErrorModel::UnboundVariable {
                node_id: *node_id,
                name: name@,
            },
            EvalError::FormulaFailed { node_id } => EvalErrorModel::FormulaFailed { node_id: *node_id },
            EvalError::Unsupported { node_id } => EvalErrorModel::Unsupported { node_id: *node_id },
            EvalError::EmptyOutput { node_id } => EvalErrorModel::EmptyOutput { node_id: *node_id },
            EvalError::TooDeep { node_id } => EvalErrorModel::TooDeep { node_id: *node_id },
        }
    }
}

impl Node {
    /// A variable node without inputs.
    pub fn from_variable(node_id: usize, variable_name: String) -> (r: Result<Node, BuildError>)
        ensures
            r is Ok,
            r->Ok_0@ == (NodeModel {
                id: node_id,
                inputs: Seq::empty(),
                kind: KindModel::Variable(variable_name@),
            }),
    {
        Ok(Node { id: node_id, inputs: Vec::new(), kind: NodeKind::Variable(variable_name) })
    }

    /// A formula node without inputs; fails when the text does not parse.
    pub fn from_formula(node_id: usize, formula: &str) -> (r: Result<Node, BuildError>)
        ensures
            r is Ok == formula_parses(formula@),
            r is Ok ==> r->Ok_0@ == (NodeModel {
                id: node_id,
                inputs: Seq::empty(),
                kind: KindModel::Formula(formula@),
            }),
            r is Err ==> r->Err_0 == (BuildError::InvalidFormula { node_id }),
    {
        match check_formula(formula) {
            Ok(()) => Ok(
                Node {
                    id: node_id,
                    inputs: Vec::new(),
                    kind: NodeKind::Formula(formula.to_owned()),
                },
            ),
            Err(_) => Err(BuildError::InvalidFormula { node_id }),
        }
    }

    /// A constant node with id 0 and without inputs.
    pub fn from_float(value: u64) -> (r: Result<Node, BuildError>)
        ensures
            r is Ok,
            r->Ok_0@ == (NodeModel {
                id: 0,
                inputs: Seq::empty(),
                kind: KindModel::Constant(value),
            }),
    {
        Ok(Node { id: 0, inputs: Vec::new(), kind: NodeKind::Constant(value) })
    }

    /// A constant-sequence node with id 0 and without inputs.
    pub fn from_float_vec(vec: &Vec<u64>) -> (r: Result<Node, BuildError>)
        ensures
            r is Ok,
            r->Ok_0@ == (NodeModel {
                id: 0,
                inputs: Seq::empty(),
                kind: KindModel::ConstantSequence(vec@),
            }),
    {
        Ok(Node { id: 0, inputs: Vec::new(), kind: NodeKind::ConstantSequence(vec.clone()) })
    }
}

} // verus!
