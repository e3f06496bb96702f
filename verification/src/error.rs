//! Reasons for which a model cannot be compiled.

use vstd::prelude::*;
use vstd::string::StringExecFns;

use crate::checks::MAX_CATEGORICAL_STATES;
use crate::graph::Node;
use crate::text::{append_decimal, append_node, decimal, node_text};

verus! {

/// An error produced when compiling a [`Program`](crate::Program).
#[derive(Clone, Copy, Debug, PartialEq, Eq, Structural)]
pub enum Error {
    /// A block has no nodes.
    EmptyBlock,
    /// A block mixes nodes of different kinds.
    MixedBlock(Node, Node),
    /// A node appears more than once across the free and clamped blocks.
    DuplicateNode(Node),
    /// A factor references a node that is in no free or clamped block.
    UncoveredNode(Node),
    /// Node groups of one factor differ in length.
    GroupLengthMismatch,
    /// The length of a factor weight tensor doesn't match its node groups.
    WeightLengthMismatch { expected: usize, actual: usize },
    /// A spin group contains a categorical node, or the other way around.
    GroupKindMismatch(Node),
    /// Two nodes of one free block interact, breaking parallel updates.
    IntraBlockInteraction(Node, Node),
    /// A categorical node has fewer than 2 or too many states.
    BadStateCount(Node),
}

/// What an error is reported as.
pub open spec fn error_text(error: Error) -> Seq<char> {
    match error {
        Error::EmptyBlock => "block is empty"@,
        Error::MixedBlock(a, b) => "block mixes nodes of different kinds ("@ + node_text(a)
            + " vs "@ + node_text(b) + ")"@,
        Error::DuplicateNode(node) => node_text(node)
            + " appears more than once across the free and clamped blocks"@,
        Error::UncoveredNode(node) => node_text(node)
            + " is referenced by a factor but not covered by any block"@,
        Error::GroupLengthMismatch => "node groups of a factor differ in length"@,
        Error::WeightLengthMismatch { expected, actual } => "weight tensor length "@ + decimal(
            actual as nat,
        ) + " doesn't match the expected "@ + decimal(expected as nat),
        Error::GroupKindMismatch(node) => node_text(node)
            + " has the wrong kind for its factor group"@,
        Error::IntraBlockInteraction(head, tail) => node_text(head) + " and "@ + node_text(tail)
            + " interact but belong to the same free block"@,
        Error::BadStateCount(node) => node_text(node) + " must have between 2 and "@ + decimal(
            MAX_CATEGORICAL_STATES as nat,
        ) + " states"@,
    }
}

impl Error {
    /// What the error is reported as.
    pub fn message(&self) -> (r: String)
        ensures
            r@ == error_text(*self),
    {
        let mut text = String::new();
        match *self {
            Error::EmptyBlock => {
                text.append("block is empty");
            },
            Error::MixedBlock(a, b) => {
                text.append("block mixes nodes of different kinds (");
                append_node(&mut text, a);
                text.append(" vs ");
                append_node(&mut text, b);
                text.append(")");
            },
            Error::DuplicateNode(node) => {
                append_node(&mut text, node);
                text.append(" appears more than once across the free and clamped blocks");
            },
            Error::UncoveredNode(node) => {
                append_node(&mut text, node);
                text.append(" is referenced by a factor but not covered by any block");
            },
            Error::GroupLengthMismatch => {
                text.append("node groups of a factor differ in length");
            },
            Error::WeightLengthMismatch { expected, actual } => {
                text.append("weight tensor length ");
                append_decimal(&mut text, actual as u64);
                text.append(" doesn't match the expected ");
                append_decimal(&mut text, expected as u64);
            },
            Error::GroupKindMismatch(node) => {
                append_node(&mut text, node);
                text.append(" has the wrong kind for its factor group");
            },
            Error::IntraBlockInteraction(head, tail) => {
                append_node(&mut text, head);
                text.append(" and ");
                append_node(&mut text, tail);
                text.append(" interact but belong to the same free block");
            },
            Error::BadStateCount(node) => {
                append_node(&mut text, node);
                text.append(" must have between 2 and ");
                append_decimal(&mut text, MAX_CATEGORICAL_STATES as u64);
                text.append(" states");
            },
        }
        assert(text@ =~= error_text(*self));
        text
    }
}

} // verus!
