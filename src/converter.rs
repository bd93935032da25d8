//! Decorators that convert the result of their child.
use vstd::prelude::*;

use crate::node::{Node, NodeResult, NodeStatus};

verus! {

/// A mapping of results: what `Success` and what `Failure` become.
#[derive(Debug, Clone, Copy, PartialEq, Eq, Structural)]
pub struct ResultConverter {
    pub on_success: NodeResult,
    pub on_failure: NodeResult,
}

impl ResultConverter {
    pub open spec fn maps(self, r: NodeResult) -> NodeResult {
        match r {
            NodeResult::Success => self.on_success,
            NodeResult::Failure => self.on_failure,
        }
    }

    /// What a completed child's `status` becomes; a pending status passes
    /// through untouched.
    pub open spec fn converts(self, status: NodeStatus) -> NodeStatus {
        match status {
            NodeStatus::Complete(r) => NodeStatus::Complete(self.maps(r)),
            _ => status,
        }
    }

    pub fn convert(&self, status: NodeStatus) -> (r: NodeStatus)
        ensures
            r == self.converts(status),
    {
        match status {
            NodeStatus::Complete(result) => NodeStatus::Complete(
                match result {
                    NodeResult::Success => self.on_success,
                    NodeResult::Failure => self.on_failure,
                },
            ),
            _ => status,
        }
    }
}

impl ResultConverter {
    /// A node running `child` and mapping its result by `converter`.
    pub fn new(child: Node, converter: ResultConverter) -> (r: Node)
        ensures
            r == (Node::Convert { child: Box::new(child), converter }),
    {
        Node::Convert { child: Box::new(child), converter }
    }
}

/// Inverts the result of its child.
pub struct Invert;

impl Invert {
    pub fn new(child: Node) -> (r: Node)
        ensures
            r == (Node::Convert {
                child: Box::new(child),
                converter: ResultConverter { on_success: NodeResult::Failure, on_failure: NodeResult::Success },
            }),
    {
        ResultConverter::new(
            child,
            ResultConverter { on_success: NodeResult::Failure, on_failure: NodeResult::Success },
        )
    }
}

/// Completes with `result` whatever its child completes with.
pub struct ForceResult;

impl ForceResult {
    pub fn new(child: Node, result: NodeResult) -> (r: Node)
        ensures
            r == (Node::Convert {
                child: Box::new(child),
                converter: ResultConverter { on_success: result, on_failure: result },
            }),
    {
        ResultConverter::new(child, ResultConverter { on_success: result, on_failure: result })
    }
}

} // verus!
