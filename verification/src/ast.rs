//! The abstract syntax tree: `Number` leaves and `BinaryExpression` internal
//! nodes, each carrying the byte-offset span of the source text it covers.

use crate::token::TokenType;
use vstd::prelude::*;

verus! {

/// The span metadata of an AST node: the half-open byte-offset range of the
/// source text that contributed to the node.
#[derive(Copy, Clone, Debug, PartialEq, Eq, Structural)]
pub struct ASTMetadata {
    pub start_offset: usize,
    pub end_offset: usize,
}

/// A node of the expression tree. A `Number` leaf stands for one `Number`
/// token; its numeric value is recoverable by slicing the source with the
/// node's span. A `BinaryExpression` combines two subtrees with one of the
/// four operators, and its span runs from the start of its left child to the
/// end of its right child.
#[derive(Debug, PartialEq)]
pub enum AST {
    BinaryExpression { metadata: ASTMetadata, lhs: Box<AST>, token_type: TokenType, rhs: Box<AST> },
    Number { metadata: ASTMetadata },
}

impl AST {
    /// The span metadata of this node, whichever variant it is.
    pub open spec fn spec_metadata(&self) -> ASTMetadata {
        match self {
            AST::BinaryExpression { metadata, .. } => *metadata,
            AST::Number { metadata, .. } => *metadata,
        }
    }

    /// Returns the span metadata of this node.
    pub fn metadata(&self) -> (m: &ASTMetadata)
        ensures
            *m == self.spec_metadata(),
    {
        match self {
            AST::BinaryExpression { metadata, .. } => metadata,
            AST::Number { metadata, .. } => metadata,
        }
    }
}

} // verus!
