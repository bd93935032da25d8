//! Decorators that depend on conditions: loops, checks and freeze gates.
use vstd::prelude::*;

use crate::node::{Host, HostCall, Node, NodeResult, NodeState, NodeStatus};
use crate::journal::Recorder;

verus! {

/// Progress of a conditional loop.
#[derive(Debug, Clone, Copy, PartialEq, Eq)]
pub struct LoopState {
    /// How many times the child completed.
    pub count: usize,
    /// The result of the child's last completion.
    pub last_result: Option<NodeResult>,
}

/// The condition of a conditional loop.
#[derive(Debug, Clone, Copy)]
pub enum LoopCondChecker {
    Always(Always),
    RepeatCount(RepeatCount),
    UntilResult(UntilResult),
    /// The host's loop condition with this id.
    Host(u64),
    /// At most one iteration, and only if the host condition with this id holds.
    Once(u64),
}

/// Always loop again.
#[derive(Debug, Clone, Copy)]
pub struct Always;

/// Loop while fewer than `count` iterations completed.
#[derive(Debug, Clone, Copy)]
pub struct RepeatCount {
    pub count: usize,
}

/// Loop until the child completes with `until`.
#[derive(Debug, Clone, Copy)]
pub struct UntilResult {
    pub until: NodeResult,
}

impl LoopState {
    /// No iteration completed yet.
    pub open spec fn initial() -> LoopState {
        LoopState { count: 0, last_result: None }
    }

    /// The state after the child completed once more with `result`.
    pub open spec fn recorded(self, result: NodeResult) -> LoopState {
        LoopState {
            count: if self.count < usize::MAX { (self.count + 1) as usize } else { usize::MAX },
            last_result: Some(result),
        }
    }

    /// What the loop completes with when its condition declines.
    pub open spec fn final_result(self) -> NodeResult {
        match self.last_result {
            Some(r) => r,
            None => NodeResult::Failure,
        }
    }

    pub fn new() -> (r: LoopState)
        ensures
            r == LoopState::initial(),
    {
        LoopState { count: 0, last_result: None }
    }

    /// The child completed once more with `result`.
    pub fn update(self, result: NodeResult) -> (r: LoopState)
        ensures
            r == self.recorded(result),
    {
        LoopState { count: self.count.saturating_add(1), last_result: Some(result) }
    }
}

impl Always {
    pub fn check(&self, _state: LoopState) -> (b: bool)
        ensures
            b,
    {
        true
    }
}

impl RepeatCount {
    pub fn check(&self, state: LoopState) -> (b: bool)
        ensures
            b == (state.count < self.count),
    {
        state.count < self.count
    }
}

impl UntilResult {
    pub fn check(&self, state: LoopState) -> (b: bool)
        ensures
            b == (state.last_result != Some(self.until)),
    {
        match state.last_result {
            Some(r) => r != self.until,
            None => true,
        }
    }
}

impl LoopCondChecker {
    /// The condition's value on `state`, where it does not ask the host.
    pub open spec fn decided(self, state: LoopState) -> Option<bool> {
        match self {
            LoopCondChecker::Always(_) => Some(true),
            LoopCondChecker::RepeatCount(c) => Some(state.count < c.count),
            LoopCondChecker::UntilResult(u) => Some(state.last_result != Some(u.until)),
            LoopCondChecker::Host(_) => None,
            LoopCondChecker::Once(_) => if state.count == 0 && state.last_result is None {
                None
            } else {
                Some(false)
            },
        }
    }

    /// The condition may allow another iteration from `state`.
    pub open spec fn may_continue(self, state: LoopState) -> bool {
        self.decided(state) != Some(false)
    }

    /// The condition may decline another iteration from `state`.
    pub open spec fn may_stop(self, state: LoopState) -> bool {
        self.decided(state) != Some(true)
    }

    /// The loop state reached from `state` when the child completes with
    /// `outcomes` in turn and the condition allows another iteration after
    /// each; `None` if the condition cannot have allowed one.
    pub open spec fn reach(self, state: LoopState, outcomes: Seq<NodeResult>) -> Option<LoopState>
        decreases outcomes.len(),
    {
        if outcomes.len() == 0 {
            Some(state)
        } else {
            let next = state.recorded(outcomes[0]);
            if self.may_continue(next) {
                self.reach(next, outcomes.drop_first())
            } else {
                None
            }
        }
    }

    /// A loop went from the loop state `from` to `status` for some outcomes
    /// of its child: pending at a reachable loop state, or complete with the
    /// child's last result where the condition may decline, or with the
    /// loop's own result where it may decline at once.
    pub open spec fn follows(self, from: LoopState, status: NodeStatus) -> bool {
        match status {
            NodeStatus::Pending(NodeState::Loop { loop_state, .. }) => exists|outcomes: Seq<NodeResult>|
                #[trigger] self.reach(from, outcomes) == Some(loop_state),
            NodeStatus::Complete(result) => (exists|outcomes: Seq<NodeResult>|
                #[trigger] self.reach(from, outcomes) matches Some(last) && self.may_stop(
                last.recorded(result),
            )) || (self.may_stop(from) && result == from.final_result()),
            _ => true,
        }
    }

    /// Where the condition allows going on after `r`, reaching on from `state`
    /// through `r` first is reaching on from the recorded state.
    pub proof fn lemma_reach_through(self, state: LoopState, r: NodeResult, outcomes: Seq<NodeResult>)
        requires
            self.may_continue(state.recorded(r)),
        ensures
            self.reach(state, seq![r] + outcomes) == self.reach(state.recorded(r), outcomes),
    {
        let longer = seq![r] + outcomes;
        assert(longer[0] == r);
        assert(longer.drop_first() =~= outcomes);
    }

    /// A loop's progress carries over a further step taken from where it went.
    pub proof fn lemma_follows_through(self, state: LoopState, r: NodeResult, status: NodeStatus)
        requires
            self.may_continue(state.recorded(r)),
            self.follows(state.recorded(r), status),
        ensures
            self.follows(state, status),
    {
        let next = state.recorded(r);
        match status {
            NodeStatus::Pending(NodeState::Loop { loop_state, .. }) => {
                let outcomes = choose|outcomes: Seq<NodeResult>| #[trigger] self.reach(next, outcomes) == Some(loop_state);
                self.lemma_reach_through(state, r, outcomes);
                assert(self.reach(state, seq![r] + outcomes) == Some(loop_state));
            },
            NodeStatus::Complete(result) => {
                if exists|outcomes: Seq<NodeResult>|
                    #[trigger] self.reach(next, outcomes) matches Some(last) && self.may_stop(last.recorded(result)) {
                    let outcomes = choose|outcomes: Seq<NodeResult>|
                        #[trigger] self.reach(next, outcomes) matches Some(last) && self.may_stop(last.recorded(result));
                    self.lemma_reach_through(state, r, outcomes);
                    assert(self.reach(state, seq![r] + outcomes) == self.reach(next, outcomes));
                } else {
                    assert(self.reach(state, Seq::<NodeResult>::empty()) == Some(state));
                    assert(result == next.final_result());
                    assert(result == r);
                }
            },
            _ => {},
        }
    }

    /// The exchange with the host when checking on `state` gives `b`.
    pub open spec fn asked(self, state: LoopState, b: bool) -> Seq<HostCall> {
        match self {
            LoopCondChecker::Host(id) => seq![HostCall::LoopCondition(id, state, b)],
            LoopCondChecker::Once(id) => if state.count == 0 && state.last_result is None {
                seq![HostCall::Condition(id, b)]
            } else {
                seq![]
            },
            _ => seq![],
        }
    }

    /// Whether the loop runs its child again from `state`. The host is asked
    /// only where the condition does not decide by itself.
    pub fn check<H: Host>(&self, host: &mut Recorder<H>, state: LoopState) -> (b: bool)
        ensures
            final(host).journal() == old(host).journal() + self.asked(state, b),
            self.decided(state) matches Some(v) ==> b == v,
    {
        let ghost before = host.journal();
        let b = match self {
            LoopCondChecker::Always(c) => c.check(state),
            LoopCondChecker::RepeatCount(c) => c.check(state),
            LoopCondChecker::UntilResult(c) => c.check(state),
            LoopCondChecker::Host(id) => host.check_loop_condition(*id, state),
            LoopCondChecker::Once(id) => {
                if state.count == 0 && state.last_result.is_none() {
                    host.check_condition(*id)
                } else {
                    false
                }
            },
        };
        assert(host.journal() =~= before + self.asked(state, b));
        b
    }

}

/// What a freeze gate does on a tick.
#[derive(Debug, Clone, Copy, PartialEq, Eq, Structural)]
pub enum GateAction {
    /// The condition is false: the child is not touched.
    Hold,
    /// The condition holds and the child has not been entered: enter it.
    Begin,
    /// The condition holds and the child is pending: resume it.
    Resume,
}

pub open spec fn gate(open: bool, started: bool) -> GateAction {
    if !open {
        GateAction::Hold
    } else if started {
        GateAction::Resume
    } else {
        GateAction::Begin
    }
}

/// What a freeze gate does on a tick where its condition is `open`.
pub fn gate_action(open: bool, started: bool) -> (r: GateAction)
    ensures
        r == gate(open, started),
{
    if !open {
        GateAction::Hold
    } else if started {
        GateAction::Resume
    } else {
        GateAction::Begin
    }
}

/// Runs its child again and again while its condition holds.
pub struct ConditionalLoop;

impl ConditionalLoop {
    pub fn new(node: Node, condition: LoopCondChecker) -> (r: Node)
        ensures
            r == (Node::Loop { child: Box::new(node), condition }),
    {
        Node::Loop { child: Box::new(node), condition }
    }
}

/// Runs its child once if the host condition `checker` holds.
pub struct Conditional;

impl Conditional {
    pub fn new(child: Node, checker: u64) -> (r: Node)
        ensures
            r == (Node::Loop { child: Box::new(child), condition: LoopCondChecker::Once(checker) }),
    {
        ConditionalLoop::new(child, LoopCondChecker::Once(checker))
    }
}

/// Completes at once with the host condition `checker` as its result.
pub struct CheckIf;

impl CheckIf {
    pub fn new(checker: u64) -> (r: Node)
        ensures
            r == (Node::CheckIf { checker }),
    {
        Node::CheckIf { checker }
    }
}

/// Runs its child on the ticks where the host condition `checker` holds,
/// and holds it frozen on the others.
pub struct ElseFreeze;

impl ElseFreeze {
    pub fn new(child: Node, checker: u64) -> (r: Node)
        ensures
            r == (Node::Freeze { child: Box::new(child), checker }),
    {
        Node::Freeze { child: Box::new(child), checker }
    }
}

} // verus!
