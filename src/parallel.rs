//! Composites that advance all their children every tick.
use vstd::prelude::*;

use crate::node::{Node, NodeResult, NodeStatus};

verus! {

/// Decides from the children's results whether a parallel node completes.
#[derive(Debug, Clone, Copy, PartialEq, Eq, Structural)]
pub enum JoinStrategy {
    /// Fail on the first failure; succeed once all succeeded.
    And,
    /// Succeed on the first success; fail once all failed.
    Or,
    /// Succeed once all completed, whatever their results.
    All,
}

/// State of a pending parallel node: one status per child.
#[derive(Debug)]
pub struct ParallelState {
    pub children_status: Vec<NodeStatus>,
}

/// Every child has a result.
pub open spec fn all_complete(results: Seq<Option<NodeResult>>) -> bool {
    forall|i: int| 0 <= i < results.len() ==> (#[trigger] results[i]) is Some
}

impl JoinStrategy {
    /// The parallel node's result, given each child's result so far.
    pub open spec fn joins(self, results: Seq<Option<NodeResult>>) -> Option<NodeResult> {
        match self {
            JoinStrategy::And => if results.contains(Some(NodeResult::Failure)) {
                Some(NodeResult::Failure)
            } else if all_complete(results) {
                Some(NodeResult::Success)
            } else {
                None
            },
            JoinStrategy::Or => if results.contains(Some(NodeResult::Success)) {
                Some(NodeResult::Success)
            } else if all_complete(results) {
                Some(NodeResult::Failure)
            } else {
                None
            },
            JoinStrategy::All => if all_complete(results) {
                Some(NodeResult::Success)
            } else {
                None
            },
        }
    }

    pub fn join(&self, results: &Vec<Option<NodeResult>>) -> (r: Option<NodeResult>)
        ensures
            r == self.joins(results@),
    {
        let mut any_success = false;
        let mut any_failure = false;
        let mut all = true;
        let mut i: usize = 0;
        while i < results.len()
            invariant
                i <= results.len(),
                any_success == results@.subrange(0, i as int).contains(Some(NodeResult::Success)),
                any_failure == results@.subrange(0, i as int).contains(Some(NodeResult::Failure)),
                all == all_complete(results@.subrange(0, i as int)),
            decreases results.len() - i,
        {
            let ghost before = results@.subrange(0, i as int);
            let ghost after = results@.subrange(0, i + 1);
            assert(after == before.push(results@[i as int]));
            match results[i] {
                Some(NodeResult::Success) => {
                    any_success = true;
                },
                Some(NodeResult::Failure) => {
                    any_failure = true;
                },
                None => {
                    all = false;
                },
            }
            proof {
                assert forall|x: Option<NodeResult>| after.contains(x) <==> (before.contains(x) || x == results@[i as int]) by {
                    if after.contains(x) {
                        let j = choose|j: int| 0 <= j < after.len() && after[j] == x;
                        if j < before.len() {
                            assert(before[j] == x);
                        }
                    }
                    if before.contains(x) {
                        let j = choose|j: int| 0 <= j < before.len() && before[j] == x;
                        assert(after[j] == x);
                    }
                    if x == results@[i as int] {
                        assert(after[i as int] == x);
                    }
                }
                if !(results@[i as int] is Some) {
                    assert(!(after[i as int] is Some));
                }
            }
            i = i + 1;
        }
        assert(results@.subrange(0, results.len() as int) == results@);
        match self {
            JoinStrategy::And => if any_failure {
                Some(NodeResult::Failure)
            } else if all {
                Some(NodeResult::Success)
            } else {
                None
            },
            JoinStrategy::Or => if any_success {
                Some(NodeResult::Success)
            } else if all {
                Some(NodeResult::Failure)
            } else {
                None
            },
            JoinStrategy::All => if all {
                Some(NodeResult::Success)
            } else {
                None
            },
        }
    }
}

/// Each child's result, `None` for a child that has not completed.
pub open spec fn results_of(statuses: Seq<NodeStatus>) -> Seq<Option<NodeResult>> {
    Seq::new(statuses.len(), |i: int| statuses[i].spec_result())
}

impl ParallelState {
    /// Each child's result, `None` for a child that has not completed.
    pub fn results(&self) -> (r: Vec<Option<NodeResult>>)
        ensures
            r@ == results_of(self.children_status@),
    {
        let mut r: Vec<Option<NodeResult>> = Vec::new();
        let mut i: usize = 0;
        while i < self.children_status.len()
            invariant
                i <= self.children_status.len(),
                r@ == results_of(self.children_status@.subrange(0, i as int)),
            decreases self.children_status.len() - i,
        {
            r.push(self.children_status[i].result());
            i = i + 1;
            assert(r@ =~= results_of(self.children_status@.subrange(0, i as int)));
        }
        assert(self.children_status@.subrange(0, i as int) =~= self.children_status@);
        r
    }
}

/// Composite that advances all its children every tick.
pub struct Parallel;

impl Parallel {
    pub fn new(children: Vec<Node>, strategy: JoinStrategy) -> (r: Node)
        ensures
            r == (Node::Parallel { children, strategy }),
    {
        Node::Parallel { children, strategy }
    }
}

/// Fails as soon as a child fails; succeeds once all succeeded.
pub struct ParallelAnd;

impl ParallelAnd {
    pub fn new(nodes: Vec<Node>) -> (r: Node)
        ensures
            r == (Node::Parallel { children: nodes, strategy: JoinStrategy::And }),
    {
        Parallel::new(nodes, JoinStrategy::And)
    }
}

/// Succeeds as soon as a child succeeds; fails once all failed.
pub struct ParallelOr;

impl ParallelOr {
    pub fn new(nodes: Vec<Node>) -> (r: Node)
        ensures
            r == (Node::Parallel { children: nodes, strategy: JoinStrategy::Or }),
    {
        Parallel::new(nodes, JoinStrategy::Or)
    }
}

/// Succeeds once every child completed.
pub struct Join;

impl Join {
    pub fn new(nodes: Vec<Node>) -> (r: Node)
        ensures
            r == (Node::Parallel { children: nodes, strategy: JoinStrategy::All }),
    {
        Parallel::new(nodes, JoinStrategy::All)
    }
}

} // verus!
