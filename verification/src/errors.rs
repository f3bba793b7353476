//! The error taxonomy of the analysis.
//!
//! All failures are values, never aborts, and are recoverable per function:
//! one bad function does not stop the analysis of its neighbours.

use vstd::prelude::*;

use crate::tree::NodeKind;
use crate::tree::NodeKindV;

verus! {

/// Why a single function could not be analyzed.
#[derive(Debug, Clone, PartialEq, Eq)]
pub enum AnalysisError {
    /// A function-definition node misses an expected named child: the parse
    /// does not have the shape the grammar promises (as in an error-recovery
    /// parse).
    MalformedFunction,
    /// A parameter has a recognized but unhandled syntax shape; the kind tag
    /// is carried so the gap can be reported, never silently dropped.
    UnsupportedParameterSyntax { kind: NodeKind },
    /// A statement-like node has a shape the builder does not handle; the
    /// kind tag is carried along.
    UnsupportedStatement { kind: NodeKind },
    /// The defensive nesting bound was hit while building a graph.
    TraversalLimitExceeded,
}

/// The mathematical value of an [`AnalysisError`].
pub ghost enum AnalysisErrorV {
    MalformedFunction,
    UnsupportedParameterSyntax { kind: NodeKindV },
    UnsupportedStatement { kind: NodeKindV },
    TraversalLimitExceeded,
}

impl View for AnalysisError {
    type V = AnalysisErrorV;

    open spec fn view(&self) -> AnalysisErrorV {
        match self {
            AnalysisError::MalformedFunction => AnalysisErrorV::MalformedFunction,
            AnalysisError::UnsupportedParameterSyntax { kind } => {
                AnalysisErrorV::UnsupportedParameterSyntax { kind: kind@ }
            },
            AnalysisError::UnsupportedStatement { kind } => {
                AnalysisErrorV::UnsupportedStatement { kind: kind@ }
            },
            AnalysisError::TraversalLimitExceeded => AnalysisErrorV::TraversalLimitExceeded,
        }
    }
}

/// Copies a kind tag, preserving its value, so that an error can carry the
/// tag of a node that stays in the tree.
pub fn clone_kind(k: &NodeKind) -> (r: NodeKind)
    ensures
        r == *k,
{
    match k {
        NodeKind::Module => NodeKind::Module,
        NodeKind::FunctionDefinition => NodeKind::FunctionDefinition,
        NodeKind::Identifier => NodeKind::Identifier,
        NodeKind::Parameters => NodeKind::Parameters,
        NodeKind::Block => NodeKind::Block,
        NodeKind::IfStatement => NodeKind::IfStatement,
        NodeKind::ElseClause => NodeKind::ElseClause,
        NodeKind::WhileStatement => NodeKind::WhileStatement,
        NodeKind::ReturnStatement => NodeKind::ReturnStatement,
        NodeKind::BreakStatement => NodeKind::BreakStatement,
        NodeKind::ContinueStatement => NodeKind::ContinueStatement,
        NodeKind::ExpressionStatement => NodeKind::ExpressionStatement,
        NodeKind::PassStatement => NodeKind::PassStatement,
        NodeKind::Other(s) => NodeKind::Other(s.clone()),
    }
}

} // verus!
