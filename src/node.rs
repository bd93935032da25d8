//! The node protocol: results, statuses, resumable states and the host.
use vstd::prelude::*;

use crate::journal::Recorder;
use crate::conditional::{gate_action, GateAction, LoopCondChecker, LoopState, RepeatCount};
use crate::converter::ResultConverter;
use crate::parallel::{JoinStrategy, ParallelState};
use crate::parallel::results_of;
use crate::sequential::{
    lemma_run_extend, lemma_run_open, Picker, ResultConstructor, ScoredSequenceState, Scorer, SequenceProgress,
};
use crate::task::{poll_calls, poll_task, task_outcome, TaskEvent, TaskStatus};

verus! {

/// Result of a completed node.
#[derive(Debug, Clone, Copy, PartialEq, Eq, Structural)]
pub enum NodeResult {
    Success,
    Failure,
}

impl NodeResult {
    pub open spec fn negated(self) -> NodeResult {
        match self {
            NodeResult::Success => NodeResult::Failure,
            NodeResult::Failure => NodeResult::Success,
        }
    }

    /// The opposite result.
    pub fn not(self) -> (r: NodeResult)
        ensures
            r == self.negated(),
    {
        match self {
            NodeResult::Success => NodeResult::Failure,
            NodeResult::Failure => NodeResult::Success,
        }
    }
}

/// What a pending node keeps between ticks.
///
/// Each node kind reads only the variant that it produces itself; handing a
/// node the state of another kind is reported as
/// [`NodeStateError::InvalidTypeOfState`].
#[derive(Debug)]
pub enum NodeState {
    /// A task waiting for its checker to report completion.
    Task,
    /// A conditional loop. `child` is `None` when the condition already
    /// allowed another iteration and the child is entered on the next tick.
    Loop { loop_state: LoopState, child: Option<Box<NodeState>> },
    /// A freeze gate. `child` is `None` while the child has not been entered.
    Freeze { child: Option<Box<NodeState>> },
    /// A scored sequence.
    Scored(ScoredSequenceState),
    /// A parallel composite.
    Parallel(ParallelState),
}

/// Status of the evaluation of a node.
#[derive(Debug)]
pub enum NodeStatus {
    /// Not evaluated yet; only ever supplied by a driver, never returned.
    Beginning,
    Pending(NodeState),
    Complete(NodeResult),
}

impl NodeStatus {
    pub open spec fn spec_result(&self) -> Option<NodeResult> {
        match self {
            NodeStatus::Complete(r) => Some(*r),
            _ => None,
        }
    }

    /// The result, if the node completed.
    pub fn result(&self) -> (r: Option<NodeResult>)
        ensures
            r == self.spec_result(),
    {
        match self {
            NodeStatus::Complete(result) => Some(*result),
            _ => None,
        }
    }
}

/// A state was handed to a node that did not produce it.
#[derive(Debug, Clone, Copy, PartialEq, Eq, Structural)]
pub enum NodeStateError {
    InvalidTypeOfState,
}

/// Everything a tree asks of the simulation around it, for the one agent
/// that owns the tree instance.
///
/// Answers depend on the simulation's state, so nothing is assumed of them.
pub trait Host {
    /// Runs the checker of `task`.
    fn check_task(&mut self, task: u64) -> TaskStatus;

    /// Fires the listeners registered on `task` for `event`, and applies
    /// their deferred commands before the next query.
    fn trigger_event(&mut self, task: u64, event: TaskEvent);

    /// Evaluates the condition `checker`.
    fn check_condition(&mut self, checker: u64) -> bool;

    /// Evaluates the loop condition `checker` on the loop's progress.
    fn check_loop_condition(&mut self, checker: u64, state: LoopState) -> bool;

    /// The score of `scorer`, as a key: a larger key is a higher score.
    fn score_node(&mut self, scorer: u64) -> u64;

    /// A weighted random key for a child scored by `scorer`: draws
    /// `u` uniformly from (0, 1) and keys it by `u^(1/score)`, encoded so
    /// that a larger key is a larger value.
    fn weighted_key(&mut self, scorer: Scorer) -> u64;
}

/// One exchange with the host, with the host's answer.
pub enum HostCall {
    Task(u64, TaskStatus),
    Event(u64, TaskEvent),
    Condition(u64, bool),
    LoopCondition(u64, LoopState, bool),
    Score(u64, u64),
    Weighted(Scorer, u64),
}

/// `now` is `before` followed by further exchanges.
pub open spec fn extends(before: Seq<HostCall>, now: Seq<HostCall>) -> bool {
    &&& before.len() <= now.len()
    &&& forall|i: int| 0 <= i < before.len() ==> #[trigger] now[i] == before[i]
}

/// The `Exit` events of `tasks`, in order.
pub open spec fn exit_calls(tasks: Seq<u64>) -> Seq<HostCall> {
    tasks.map_values(|t: u64| HostCall::Event(t, TaskEvent::Exit))
}

/// An immutable behavior tree definition.
pub enum Node {
    /// A leaf bridging to the task `task` of the host.
    Task { task: u64 },
    /// A leaf completing at once with the host condition `checker`.
    CheckIf { checker: u64 },
    /// A leaf completing at once with `result`.
    Quick { result: NodeResult },
    /// Maps the result of `child`.
    Convert { child: Box<Node>, converter: ResultConverter },
    /// Runs `child` again and again while `condition` holds.
    Loop { child: Box<Node>, condition: LoopCondChecker },
    /// Runs `child` only on ticks where the host condition `checker` holds.
    Freeze { child: Box<Node>, checker: u64 },
    /// Scores, orders, then runs `children` one at a time.
    Scored { nodes: Vec<(Node, Scorer)>, picker: Picker, constructor: ResultConstructor },
    /// Runs all `children` every tick until `strategy` decides.
    Parallel { children: Vec<Node>, strategy: JoinStrategy },
}

/// Whether `state` is one that `node` can resume: of the node's own kind,
/// and down the pending path, of each pending descendant's kind.
pub open spec fn fits(node: Node, state: NodeState) -> bool
    decreases node,
{
    match node {
        Node::Task { .. } => state is Task,
        Node::CheckIf { .. } | Node::Quick { .. } => false,
        Node::Convert { child, .. } => fits(*child, state),
        Node::Loop { child, .. } => match state {
            NodeState::Loop { child: pending, .. } => match pending {
                Some(s) => fits(*child, *s),
                None => true,
            },
            _ => false,
        },
        Node::Freeze { child, .. } => match state {
            NodeState::Freeze { child: pending } => match pending {
                Some(s) => fits(*child, *s),
                None => true,
            },
            _ => false,
        },
        Node::Scored { nodes: children, .. } => match state {
            NodeState::Scored(st) => {
                &&& st.count < st.indices.len()
                &&& st.results.len() == children.len()
                &&& forall|i: int| 0 <= i < st.indices.len() ==> #[trigger] st.indices[i] < children.len()
                &&& match st.child_state {
                    Some(s) => {
                        let k = st.indices[st.count as int] as int;
                        0 <= k < children.len() && fits(children[k].0, *s)
                    },
                    None => true,
                }
            },
            _ => false,
        },
        Node::Parallel { children, .. } => match state {
            NodeState::Parallel(ps) => {
                &&& ps.children_status.len() == children.len()
                &&& forall|i: int|
                    0 <= i < children.len() ==> match #[trigger] ps.children_status[i] {
                        NodeStatus::Pending(s) => fits(children[i], s),
                        _ => true,
                    }
            },
            _ => false,
        },
    }
}

/// A parallel node stays pending only while its strategy has not decided.
pub open spec fn parallel_undecided(strategy: JoinStrategy, r: Result<NodeStatus, NodeStateError>) -> bool {
    r matches Ok(NodeStatus::Pending(NodeState::Parallel(ps))) ==> strategy.joins(
        results_of(ps.children_status@),
    ) is None
}

/// A freeze gate that entered its child never goes back to not having
/// entered it, so the child is entered once.
pub open spec fn entered_stays(r: Result<NodeStatus, NodeStateError>) -> bool {
    r matches Ok(NodeStatus::Pending(NodeState::Freeze { child })) ==> child is Some
}

/// The tasks still entered on the pending path of `node` in `state`, in
/// declared order: the tasks a force-exit sends `Exit` to.
pub open spec fn open_tasks(node: Node, state: NodeState) -> Seq<u64>
    decreases node, 0nat,
{
    match node {
        Node::Task { task } => if state is Task {
            seq![task]
        } else {
            seq![]
        },
        Node::CheckIf { .. } | Node::Quick { .. } => seq![],
        Node::Convert { child, .. } => open_tasks(*child, state),
        Node::Loop { child, .. } => match state {
            NodeState::Loop { child: Some(s), .. } => open_tasks(*child, *s),
            _ => seq![],
        },
        Node::Freeze { child, .. } => match state {
            NodeState::Freeze { child: Some(s) } => open_tasks(*child, *s),
            _ => seq![],
        },
        Node::Scored { nodes, .. } => match state {
            NodeState::Scored(st) => match st.child_state {
                Some(s) => {
                    let k = st.indices@[st.count as int] as int;
                    if st.count < st.indices@.len() && 0 <= k < nodes@.len() {
                        open_tasks(nodes@[k].0, *s)
                    } else {
                        seq![]
                    }
                },
                None => seq![],
            },
            _ => seq![],
        },
        Node::Parallel { children, .. } => match state {
            NodeState::Parallel(ps) => open_tasks_all(children@, ps.children_status@),
            _ => seq![],
        },
    }
}

/// The open tasks of every pending child, in declared order.
pub open spec fn open_tasks_all(children: Seq<Node>, statuses: Seq<NodeStatus>) -> Seq<u64>
    decreases children, 1nat,
{
    if children.len() == 0 || statuses.len() == 0 {
        seq![]
    } else {
        let first = match statuses[0] {
            NodeStatus::Pending(s) => open_tasks(children[0], s),
            _ => seq![],
        };
        first + open_tasks_all(children.subrange(1, children.len() as int), statuses.subrange(1, statuses.len() as int))
    }
}

/// `state` is of the kind that `node` produces.
pub open spec fn kind_fits(node: Node, state: NodeState) -> bool
    decreases node,
{
    match node {
        Node::Task { .. } => state is Task,
        Node::CheckIf { .. } | Node::Quick { .. } => false,
        Node::Convert { child, .. } => kind_fits(*child, state),
        Node::Loop { .. } => state is Loop,
        Node::Freeze { .. } => state is Freeze,
        Node::Scored { .. } => state is Scored,
        Node::Parallel { .. } => state is Parallel,
    }
}

/// One tick of an `ElseFreeze` node asks its condition first; when the
/// condition is false nothing else happens and the node stays pending with
/// the state it had.
pub open spec fn gate_holds(
    checker: u64,
    pending: Option<Box<NodeState>>,
    before: Seq<HostCall>,
    after: Seq<HostCall>,
    r: Result<NodeStatus, NodeStateError>,
) -> bool {
    &&& after.len() > before.len()
    &&& after[before.len() as int] matches HostCall::Condition(c, open) && c == checker && (!open ==> (
    after == before.push(HostCall::Condition(checker, false)) && r == Ok::<NodeStatus, NodeStateError>(
        NodeStatus::Pending(NodeState::Freeze { child: pending }),
    )))
}

/// Child `i` of a parallel tick went from `earlier[i]` to `now[i]` between
/// the journal lengths `cuts[i]` and `cuts[i + 1]`: a completed child is
/// left alone, and any other is begun or resumed once, `now[i]` being what
/// it returned.
pub open spec fn advanced_ran(
    children: Seq<Node>,
    earlier: Seq<NodeStatus>,
    now: Seq<NodeStatus>,
    journal: Seq<HostCall>,
    cuts: Seq<int>,
    i: int,
) -> bool
    decreases children, 1nat,
{
    &&& 0 <= i < children.len()
    &&& 0 <= cuts[i] <= cuts[i + 1] <= journal.len()
    &&& match earlier[i] {
        NodeStatus::Complete(y) => now[i] == NodeStatus::Complete(y) && cuts[i + 1] == cuts[i],
        NodeStatus::Beginning => child_ran(
            children[i],
            None,
            journal.subrange(0, cuts[i]),
            journal.subrange(0, cuts[i + 1]),
            now[i],
        ),
        NodeStatus::Pending(s) => child_ran(
            children[i],
            Some(Box::new(s)),
            journal.subrange(0, cuts[i]),
            journal.subrange(0, cuts[i + 1]),
            now[i],
        ),
    }
}

/// A parallel tick advanced every child once, in declared order, from
/// `earlier` to `now`, starting at the journal `before`.
pub open spec fn parallel_ran(
    children: Seq<Node>,
    earlier: Seq<NodeStatus>,
    now: Seq<NodeStatus>,
    before: Seq<HostCall>,
    journal: Seq<HostCall>,
    cuts: Seq<int>,
) -> bool
    decreases children, 2nat,
{
    &&& now.len() == children.len()
    &&& earlier.len() == children.len()
    &&& cuts.len() == children.len() + 1
    &&& cuts[0] == before.len()
    &&& forall|i: int|
        0 <= i < children.len() ==> #[trigger] chosen(i) && advanced_ran(children, earlier, now, journal, cuts, i)
}

/// How a parallel tick from the statuses `earlier` ends. When the strategy already decides
/// on the results it was handed, it completes with that decision and
/// force-exits every pending child, asking nothing else. Otherwise every
/// child is advanced once, in declared order (`parallel_ran`), and the tick
/// either stays pending with exactly the statuses the children returned, or
/// completes with the strategy's decision on them, after force-exiting every
/// child still pending.
pub open spec fn parallel_ends(
    children: Seq<Node>,
    strategy: JoinStrategy,
    earlier: Seq<NodeStatus>,
    before: Seq<HostCall>,
    after: Seq<HostCall>,
    r: Result<NodeStatus, NodeStateError>,
) -> bool
    decreases children, 3nat,
{
    &&& (all_resumable(children, earlier) && earlier.len() == children.len())
        ==> (strategy.joins(results_of(earlier)) matches Some(x) ==> (r
        == Ok::<NodeStatus, NodeStateError>(NodeStatus::Complete(x)) && after == before + exit_calls(
        open_tasks_all(children, earlier),
    )))
    &&& r matches Ok(NodeStatus::Complete(x)) ==> (strategy.joins(results_of(earlier)) == Some(x)
        || exists|now: Seq<NodeStatus>, cuts: Seq<int>|
        #[trigger] chosen((now, cuts)) && parallel_ran(children, earlier, now, before, after, cuts) && strategy.joins(
            results_of(now),
        ) == Some(x) && (all_resumable(children, now) ==> after == after.subrange(0, cuts.last())
            + exit_calls(open_tasks_all(children, now))))
    &&& r matches Ok(NodeStatus::Pending(NodeState::Parallel(ps))) ==> exists|cuts: Seq<int>|
        #[trigger] chosen(cuts) && parallel_ran(children, earlier, ps.children_status@, before, after, cuts)
            && cuts.last() == after.len()
}

/// Marks the witnesses of an existential; holds of every value.
pub open spec fn chosen<A>(a: A) -> bool {
    true
}

/// Child `child` was begun (no `pending` state) or resumed from `pending`,
/// took the journal from `before` to `after`, and returned `status`: all
/// that its own contract says of such a call.
pub open spec fn child_ran(
    child: Node,
    pending: Option<Box<NodeState>>,
    before: Seq<HostCall>,
    after: Seq<HostCall>,
    status: NodeStatus,
) -> bool
    decreases child, 3nat,
{
    match pending {
        None => begun(child, before, after, Ok(status)),
        Some(s) => resumed(child, *s, before, after, Ok(status)),
    }
}

/// The `j`-th child a scored sequence visited from `from`, between the
/// journal lengths `cuts[j]` and `cuts[j + 1]`, returned `status`.
pub open spec fn visit_ran(
    nodes: Seq<(Node, Scorer)>,
    from: SequenceProgress,
    pending: Option<Box<NodeState>>,
    after: Seq<HostCall>,
    cuts: Seq<int>,
    j: int,
    status: NodeStatus,
) -> bool
    decreases nodes, 1nat,
{
    let position = from.count + j;
    &&& 0 <= j < cuts.len() - 1
    &&& 0 <= cuts[j] <= cuts[j + 1] <= after.len()
    &&& 0 <= position < from.indices.len()
    &&& 0 <= from.indices[position] < nodes.len()
    &&& child_ran(
        nodes[from.indices[position] as int].0,
        if j == 0 { pending } else { None },
        after.subrange(0, cuts[j]),
        after.subrange(0, cuts[j + 1]),
        status,
    )
}

/// A scored sequence went from the progress `from`, its running child
/// pending with `pending`, to `status`, taking the journal from `before` to
/// `after`: the visited children returned `outcomes` one after another, each
/// in its own stretch of the journal between the lengths in `cuts`; the
/// progress is the model's run on those outcomes; a pending status comes
/// from the next child returning pending.
pub open spec fn scored_trace(
    nodes: Seq<(Node, Scorer)>,
    c: ResultConstructor,
    from: SequenceProgress,
    pending: Option<Box<NodeState>>,
    before: Seq<HostCall>,
    after: Seq<HostCall>,
    status: NodeStatus,
    outcomes: Seq<NodeResult>,
    cuts: Seq<int>,
) -> bool
    decreases nodes, 2nat,
{
    &&& cuts.len() == outcomes.len() + 1
    &&& cuts[0] == before.len()
    &&& extends(before, after)
    &&& forall|j: int|
        0 <= j < outcomes.len() ==> visit_ran(nodes, from, pending, after, cuts, j, NodeStatus::Complete(#[trigger] outcomes[j]))
    &&& match status {
        NodeStatus::Complete(x) => if outcomes.len() == 0 {
            &&& from.count >= from.indices.len()
            &&& x == c.constructs(from.results, from.last())
            &&& after == before
        } else {
            &&& from.run(c, outcomes.drop_last()).1 is None
            &&& from.run(c, outcomes).1 == Some(x)
            &&& cuts.last() == after.len()
        },
        NodeStatus::Pending(NodeState::Scored(next)) => {
            &&& from.run(c, outcomes) == (next@, None::<NodeResult>)
            &&& next.child_state matches Some(s) && visit_ran(
                nodes,
                from,
                pending,
                after,
                cuts.push(after.len() as int),
                outcomes.len() as int,
                NodeStatus::Pending(*s),
            )
        },
        _ => false,
    }
}

/// A scored sequence ran from `from` to `status` on the outcomes its
/// children actually returned.
pub open spec fn scored_ran(
    nodes: Seq<(Node, Scorer)>,
    c: ResultConstructor,
    from: SequenceProgress,
    pending: Option<Box<NodeState>>,
    before: Seq<HostCall>,
    after: Seq<HostCall>,
    status: NodeStatus,
) -> bool
    decreases nodes, 3nat,
{
    exists|outcomes: Seq<NodeResult>, cuts: Seq<int>|
        #[trigger] chosen((outcomes, cuts)) && scored_trace(nodes, c, from, pending, before, after, status, outcomes, cuts)
}


/// Within one tick, a sequence (`And`) stops at the first visited child that
/// fails: if the children it visited returned `outcomes` (which `begin` and
/// `resume` guarantee through `scored_ran`) and the `k`-th of them failed,
/// that child was the last one visited, so no later child was begun, and
/// the sequence completed with `Failure` on that tick.
pub proof fn sequence_tick_stops_at_failure(
    nodes: Seq<(Node, Scorer)>,
    from: SequenceProgress,
    pending: Option<Box<NodeState>>,
    before: Seq<HostCall>,
    after: Seq<HostCall>,
    status: NodeStatus,
    outcomes: Seq<NodeResult>,
    cuts: Seq<int>,
    k: int,
)
    requires
        from.wf(),
        scored_trace(nodes, ResultConstructor::And, from, pending, before, after, status, outcomes, cuts),
        0 <= k < outcomes.len(),
        outcomes[k] == NodeResult::Failure,
    ensures
        k == outcomes.len() - 1,
        status == NodeStatus::Complete(NodeResult::Failure),
{
    lemma_tick_stops(nodes, ResultConstructor::And, from, pending, before, after, status, outcomes, cuts, k);
    let slot = from.indices[from.count + k] as int;
    assert(from.run(ResultConstructor::And, outcomes).0.results[slot] == Some(NodeResult::Failure));
    assert(from.run(ResultConstructor::And, outcomes).0.results.contains(Some(NodeResult::Failure)));
}

/// Within one tick, a selector (`Or`) stops at the first visited child that
/// succeeds: if the children it visited returned `outcomes` (which `begin`
/// and `resume` guarantee through `scored_ran`) and the `k`-th of them
/// succeeded, that child was the last one visited, so no later child was
/// begun, and the selector completed with `Success` on that tick.
pub proof fn selector_tick_stops_at_success(
    nodes: Seq<(Node, Scorer)>,
    from: SequenceProgress,
    pending: Option<Box<NodeState>>,
    before: Seq<HostCall>,
    after: Seq<HostCall>,
    status: NodeStatus,
    outcomes: Seq<NodeResult>,
    cuts: Seq<int>,
    k: int,
)
    requires
        from.wf(),
        scored_trace(nodes, ResultConstructor::Or, from, pending, before, after, status, outcomes, cuts),
        0 <= k < outcomes.len(),
        outcomes[k] == NodeResult::Success,
    ensures
        k == outcomes.len() - 1,
        status == NodeStatus::Complete(NodeResult::Success),
{
    lemma_tick_stops(nodes, ResultConstructor::Or, from, pending, before, after, status, outcomes, cuts, k);
    let slot = from.indices[from.count + k] as int;
    assert(from.run(ResultConstructor::Or, outcomes).0.results[slot] == Some(NodeResult::Success));
    assert(from.run(ResultConstructor::Or, outcomes).0.results.contains(Some(NodeResult::Success)));
}

/// A visited child whose result stops the constructor was the last one
/// visited, and the node completed with the constructor's result, which
/// counts that child's result.
proof fn lemma_tick_stops(
    nodes: Seq<(Node, Scorer)>,
    c: ResultConstructor,
    from: SequenceProgress,
    pending: Option<Box<NodeState>>,
    before: Seq<HostCall>,
    after: Seq<HostCall>,
    status: NodeStatus,
    outcomes: Seq<NodeResult>,
    cuts: Seq<int>,
    k: int,
)
    requires
        from.wf(),
        scored_trace(nodes, c, from, pending, before, after, status, outcomes, cuts),
        0 <= k < outcomes.len(),
        !c.continues(outcomes[k]),
    ensures
        k == outcomes.len() - 1,
        status matches NodeStatus::Complete(x) && x == c.constructs(
            from.run(c, outcomes).0.results,
            from.run(c, outcomes).0.last(),
        ),
        from.run(c, outcomes).0.results[from.indices[from.count + k] as int] == Some(outcomes[k]),
        from.run(c, outcomes).0.results.len() == from.results.len(),
        0 <= from.indices[from.count + k] < from.results.len(),
{
    match status {
        NodeStatus::Pending(NodeState::Scored(next)) => {
            lemma_run_open(from, c, outcomes);
            assert(c.continues(outcomes[k]));
        },
        NodeStatus::Complete(x) => {
            let earlier = outcomes.drop_last();
            lemma_run_open(from, c, earlier);
            if k < outcomes.len() - 1 {
                assert(earlier[k] == outcomes[k]);
                assert(c.continues(earlier[k]));
            }
            assert(outcomes == earlier.push(outcomes[k]));
            lemma_run_extend(from, c, earlier, outcomes[k]);
            assert(visit_ran(nodes, from, pending, after, cuts, k, NodeStatus::Complete(outcomes[k])));
        },
        _ => {},
    }
}

/// The state of an `ElseFreeze` node over a task after tick `t`, for a
/// condition that turns true at tick `m`: not entered before `m`, the
/// task's pending state from then on.
pub open spec fn freeze_over_task_state(m: nat, t: int) -> NodeStatus {
    NodeStatus::Pending(
        NodeState::Freeze { child: if t < m { None } else { Some(Box::new(NodeState::Task)) } },
    )
}

/// The ticks `0..statuses.len()` of an `ElseFreeze` node over the task
/// `task`, driven as a tree driver does: tick `t` takes the journal from
/// `journals[t]` to `journals[t + 1]` and returns `statuses[t]`; tick 0
/// begins the node and each later tick resumes the state the tick before
/// returned; the condition is false on the first `m` ticks and true after.
pub open spec fn freeze_over_task_ticks(
    task: u64,
    checker: u64,
    m: nat,
    statuses: Seq<NodeStatus>,
    journals: Seq<Seq<HostCall>>,
) -> bool {
    let node = Node::Freeze { child: Box::new(Node::Task { task }), checker };
    &&& statuses.len() >= 1
    &&& journals.len() == statuses.len() + 1
    &&& begun(node, journals[0], journals[1], Ok(statuses[0]))
    &&& forall|t: int|
        1 <= t < statuses.len() ==> (#[trigger] statuses[t - 1] matches NodeStatus::Pending(s) && resumed(
            node,
            s,
            journals[t],
            journals[t + 1],
            Ok(statuses[t]),
        ))
    &&& forall|t: int|
        0 <= t < statuses.len() ==> journals[t + 1].len() > journals[t].len() && #[trigger] journals[t
            + 1][journals[t].len() as int] == HostCall::Condition(checker, t >= m)
}

/// An `ElseFreeze` node over a task whose condition is false for the first
/// `m` ticks and true afterwards: on each of those `m` ticks it only asks its
/// condition and stays pending without entering the task; on tick `m` it
/// enters the task (its one `Enter`) and checks it; on every later tick it
/// checks the task without entering it again; and on every open tick it
/// returns what the task's check gives. So it completes on the tick the task
/// first completes: after `m + t` ticks for a task that needs `t` checks.
pub proof fn else_freeze_over_task(
    task: u64,
    checker: u64,
    m: nat,
    statuses: Seq<NodeStatus>,
    journals: Seq<Seq<HostCall>>,
)
    requires
        freeze_over_task_ticks(task, checker, m, statuses, journals),
    ensures
        forall|t: int|
            0 <= t < statuses.len() && t < m ==> journals[t + 1] == journals[t].push(
                HostCall::Condition(checker, false),
            ) && #[trigger] statuses[t] == NodeStatus::Pending(NodeState::Freeze { child: None }),
        m < statuses.len() ==> exists|status: TaskStatus|
            journals[m + 1int] == journals[m as int].push(HostCall::Condition(checker, true)).push(
                HostCall::Event(task, TaskEvent::Enter),
            ) + poll_calls(task, status) && statuses[m as int] == freeze_wraps(task_outcome(status)),
        forall|t: int|
            m < t < statuses.len() ==> exists|status: TaskStatus|
                journals[t + 1] == journals[t].push(HostCall::Condition(checker, true)) + poll_calls(
                    task,
                    status,
                ) && #[trigger] statuses[t] == freeze_wraps(task_outcome(status)),
{
    assert forall|t: int|
        0 <= t < statuses.len() && t < m implies journals[t + 1] == journals[t].push(
            HostCall::Condition(checker, false),
        ) && #[trigger] statuses[t] == NodeStatus::Pending(NodeState::Freeze { child: None }) by {
        lemma_freeze_tick(task, checker, m, statuses, journals, t);
    }
    if m < statuses.len() {
        lemma_freeze_tick(task, checker, m, statuses, journals, m as int);
    }
    assert forall|t: int| m < t < statuses.len() implies exists|status: TaskStatus|
        journals[t + 1] == journals[t].push(HostCall::Condition(checker, true)) + poll_calls(task, status)
            && #[trigger] statuses[t] == freeze_wraps(task_outcome(status)) by {
        lemma_freeze_tick(task, checker, m, statuses, journals, t);
    }
}

/// Tick `t` of an `ElseFreeze` node over a task, as described above, and
/// its state after the tick while it is pending.
proof fn lemma_freeze_tick(
    task: u64,
    checker: u64,
    m: nat,
    statuses: Seq<NodeStatus>,
    journals: Seq<Seq<HostCall>>,
    t: int,
)
    requires
        freeze_over_task_ticks(task, checker, m, statuses, journals),
        0 <= t < statuses.len(),
    ensures
        statuses[t] is Pending ==> statuses[t] == freeze_over_task_state(m, t),
        t < m ==> journals[t + 1] == journals[t].push(HostCall::Condition(checker, false)) && statuses[t]
            == NodeStatus::Pending(NodeState::Freeze { child: None }),
        t == m ==> exists|status: TaskStatus|
            journals[t + 1] == journals[t].push(HostCall::Condition(checker, true)).push(
                HostCall::Event(task, TaskEvent::Enter),
            ) + poll_calls(task, status) && statuses[t] == freeze_wraps(task_outcome(status)),
        t > m ==> exists|status: TaskStatus|
            journals[t + 1] == journals[t].push(HostCall::Condition(checker, true)) + poll_calls(task, status)
                && statuses[t] == freeze_wraps(task_outcome(status)),
    decreases t,
{
    let child = Node::Task { task };
    let node = Node::Freeze { child: Box::new(child), checker };
    let before = journals[t];
    let after = journals[t + 1];
    let r = Ok::<NodeStatus, NodeStateError>(statuses[t]);
    let pending: Option<Box<NodeState>> = if t < m + 1 { None } else { Some(Box::new(NodeState::Task)) };
    assert(after[before.len() as int] == HostCall::Condition(checker, t >= m));
    if t == 0 {
        assert(begun(node, before, after, r));
    } else {
        lemma_freeze_tick(task, checker, m, statuses, journals, t - 1);
        assert(statuses[t - 1] matches NodeStatus::Pending(s) && resumed(node, s, before, after, r));
        assert(statuses[t - 1] == freeze_over_task_state(m, t - 1));
    }
    assert(gate_holds(checker, pending, before, after, r));
    if t >= m {
        assert(gate_passes(child, checker, pending, before, after, r));
        let inner = choose|inner: NodeStatus|
            chosen(inner) && child_ran(child, pending, before.push(HostCall::Condition(checker, true)), after, inner)
                && r == Ok::<NodeStatus, NodeStateError>(freeze_wraps(inner));
        let opened = before.push(HostCall::Condition(checker, true));
        if t == m {
            assert(begun(child, opened, after, Ok(inner)));
            let status = choose|status: TaskStatus|
                after == opened.push(HostCall::Event(task, TaskEvent::Enter)) + poll_calls(task, status) && Ok::<
                    NodeStatus,
                    NodeStateError,
                >(inner) == Ok::<NodeStatus, NodeStateError>(task_outcome(status));
            assert(statuses[t] == freeze_wraps(task_outcome(status)));
        } else {
            assert(resumed(child, NodeState::Task, opened, after, Ok(inner)));
            let status = choose|status: TaskStatus|
                after == opened + poll_calls(task, status) && Ok::<NodeStatus, NodeStateError>(inner) == Ok::<
                    NodeStatus,
                    NodeStateError,
                >(task_outcome(status));
            assert(statuses[t] == freeze_wraps(task_outcome(status)));
        }
    }
}

/// The exchanges of one entry of a task whose check completes with
/// `Success` at once.
pub open spec fn quick_success_calls(task: u64) -> Seq<HostCall> {
    seq![
        HostCall::Event(task, TaskEvent::Enter),
        HostCall::Task(task, TaskStatus::Complete(NodeResult::Success)),
        HostCall::Event(task, TaskEvent::Success),
        HostCall::Event(task, TaskEvent::Exit),
    ]
}

/// The ticks `0..statuses.len()` of a loop that repeats the task `task`
/// while fewer than `k` iterations completed, driven as a tree driver does
/// (tick 0 begins it, each later tick resumes the state the tick before
/// returned, tick `t` takes the journal from `journals[t]` to
/// `journals[t + 1]`), with a host whose every check of the task reports
/// `Success`.
pub open spec fn repeat_over_task_ticks(
    task: u64,
    k: usize,
    statuses: Seq<NodeStatus>,
    journals: Seq<Seq<HostCall>>,
) -> bool {
    let node = Node::Loop {
        child: Box::new(Node::Task { task }),
        condition: LoopCondChecker::RepeatCount(RepeatCount { count: k }),
    };
    &&& statuses.len() >= 1
    &&& journals.len() == statuses.len() + 1
    &&& begun(node, journals[0], journals[1], Ok(statuses[0]))
    &&& forall|t: int|
        1 <= t < statuses.len() ==> (#[trigger] statuses[t - 1] matches NodeStatus::Pending(s) && resumed(
            node,
            s,
            journals[t],
            journals[t + 1],
            Ok(statuses[t]),
        ))
    &&& forall|t: int, i: int|
        0 <= t < statuses.len() && 0 <= i < journals[t + 1].len() ==> (#[trigger] journals[t + 1][i] matches HostCall::Task(
            _,
            status,
        ) ==> status == TaskStatus::Complete(NodeResult::Success))
}

/// A loop that repeats a task while fewer than `k` iterations completed, over
/// a task whose checks report `Success` at once: with `k == 0` it completes
/// with `Failure` on its first tick without entering the task; otherwise
/// each tick `t < k` enters the task once (one `Enter`/`Exit` pair), the
/// loop stays pending until tick `k - 1` and completes with `Success` there.
/// So it enters the task exactly `k` times.
pub proof fn repeat_count_over_task(task: u64, k: usize, statuses: Seq<NodeStatus>, journals: Seq<Seq<HostCall>>)
    requires
        repeat_over_task_ticks(task, k, statuses, journals),
    ensures
        k == 0 ==> statuses[0] == NodeStatus::Complete(NodeResult::Failure) && journals[1] == journals[0],
        forall|t: int|
            0 <= t < statuses.len() && t < k ==> journals[t + 1] == journals[t] + quick_success_calls(task) && #[trigger] statuses[t]
                == (if t + 1 < k {
                NodeStatus::Pending(
                    NodeState::Loop {
                        loop_state: LoopState { count: (t + 1) as usize, last_result: Some(NodeResult::Success) },
                        child: None,
                    },
                )
            } else {
                NodeStatus::Complete(NodeResult::Success)
            }),
{
    if k == 0 {
        lemma_repeat_tick(task, k, statuses, journals, 0);
    }
    assert forall|t: int| 0 <= t < statuses.len() && t < k implies journals[t + 1] == journals[t] + quick_success_calls(task)
        && #[trigger] statuses[t] == (if t + 1 < k {
        NodeStatus::Pending(
            NodeState::Loop {
                loop_state: LoopState { count: (t + 1) as usize, last_result: Some(NodeResult::Success) },
                child: None,
            },
        )
    } else {
        NodeStatus::Complete(NodeResult::Success)
    }) by {
        lemma_repeat_tick(task, k, statuses, journals, t);
    }
}

/// The loop state a repeating loop enters its task from on tick `t`.
pub open spec fn repeat_state(t: int) -> LoopState {
    if t == 0 {
        LoopState::initial()
    } else {
        LoopState { count: t as usize, last_result: Some(NodeResult::Success) }
    }
}

proof fn lemma_repeat_tick(task: u64, k: usize, statuses: Seq<NodeStatus>, journals: Seq<Seq<HostCall>>, t: int)
    requires
        repeat_over_task_ticks(task, k, statuses, journals),
        0 <= t < statuses.len(),
        t <= k,
    ensures
        k == 0 ==> statuses[0] == NodeStatus::Complete(NodeResult::Failure) && journals[1] == journals[0],
        t < k ==> journals[t + 1] == journals[t] + quick_success_calls(task) && statuses[t] == (if t + 1 < k {
            NodeStatus::Pending(
                NodeState::Loop {
                    loop_state: LoopState { count: (t + 1) as usize, last_result: Some(NodeResult::Success) },
                    child: None,
                },
            )
        } else {
            NodeStatus::Complete(NodeResult::Success)
        }),
    decreases t,
{
    let child = Node::Task { task };
    let condition = LoopCondChecker::RepeatCount(RepeatCount { count: k });
    let node = Node::Loop { child: Box::new(child), condition };
    let before = journals[t];
    let after = journals[t + 1];
    let r = Ok::<NodeStatus, NodeStateError>(statuses[t]);
    let state = repeat_state(t);
    if t == 0 {
        assert(begun(node, before, after, r));
        assert(condition.asked(LoopState::initial(), k > 0) =~= Seq::<HostCall>::empty());
        assert(condition.asked(LoopState::initial(), false) =~= Seq::<HostCall>::empty());
        assert(before + Seq::<HostCall>::empty() =~= before);
        if k == 0 {
            return;
        }
        assert(loop_entered(child, condition, state, before, after, r));
    } else {
        lemma_repeat_tick(task, k, statuses, journals, t - 1);
        assert(statuses[t - 1] matches NodeStatus::Pending(s) && resumed(node, s, before, after, r));
        assert(loop_entered(child, condition, state, before, after, r));
    }
    if t < k {
        let pair = choose|pair: (NodeStatus, Seq<HostCall>)|
            chosen(pair) && begun(child, before, pair.1, Ok(pair.0)) && match pair.0 {
                NodeStatus::Pending(s) => after == pair.1 && r == Ok::<NodeStatus, NodeStateError>(
                    NodeStatus::Pending(NodeState::Loop { loop_state: state, child: Some(Box::new(s)) }),
                ),
                NodeStatus::Complete(x) => exists|allowed: bool|
                    #![trigger condition.asked(state.recorded(x), allowed)]
                    (condition.decided(state.recorded(x)) matches Some(v) ==> allowed == v) && after == pair.1
                        + condition.asked(state.recorded(x), allowed) && r == Ok::<NodeStatus, NodeStateError>(
                        if allowed {
                            NodeStatus::Pending(NodeState::Loop { loop_state: state.recorded(x), child: None })
                        } else {
                            NodeStatus::Complete(x)
                        },
                    ),
                _ => false,
            };
        let inner = pair.0;
        let mid = pair.1;
        let status = choose|status: TaskStatus|
            mid == before.push(HostCall::Event(task, TaskEvent::Enter)) + poll_calls(task, status) && Ok::<
                NodeStatus,
                NodeStateError,
            >(inner) == Ok::<NodeStatus, NodeStateError>(task_outcome(status));
        assert(mid[before.len() + 1int] == HostCall::Task(task, status));
        assert(status == TaskStatus::Complete(NodeResult::Success));
        let next = state.recorded(NodeResult::Success);
        let allowed = next.count < k;
        assert(condition.asked(next, allowed) =~= Seq::<HostCall>::empty());
        assert(mid + Seq::<HostCall>::empty() =~= mid);
        assert(mid =~= before + quick_success_calls(task));
    }
}

/// What a node may return from `begin` or `resume`: never `Beginning`, and
/// a pending status only with a state that the node can resume.
pub open spec fn yields(node: Node, status: NodeStatus) -> bool {
    match status {
        NodeStatus::Beginning => false,
        NodeStatus::Pending(s) => fits(node, s),
        NodeStatus::Complete(_) => true,
    }
}

/// The scorer of each child.
pub open spec fn scorers_of(nodes: Seq<(Node, Scorer)>) -> Seq<Scorer> {
    Seq::new(nodes.len(), |i: int| nodes[i].1)
}

/// The exchange that gives a child scored by `scorer` the key `key`: a
/// weighted draw, a host score, or none for a uniform score.
pub open spec fn key_call(scorer: Scorer, weighted: bool, key: u64) -> Seq<HostCall> {
    if weighted {
        seq![HostCall::Weighted(scorer, key)]
    } else {
        match scorer {
            Scorer::Uniform => seq![],
            Scorer::Host(id) => seq![HostCall::Score(id, key)],
        }
    }
}

/// The exchanges that give the children their `keys`, in declared order.
pub open spec fn key_calls(scorers: Seq<Scorer>, weighted: bool, keys: Seq<u64>) -> Seq<HostCall>
    decreases scorers.len(),
{
    if scorers.len() == 0 || keys.len() == 0 {
        seq![]
    } else {
        key_calls(scorers.drop_last(), weighted, keys.drop_last()) + key_call(
            scorers.last(),
            weighted,
            keys.last(),
        )
    }
}

/// `keys` has one key per scorer, and a uniform score is the key 1.
pub open spec fn keys_fit(scorers: Seq<Scorer>, weighted: bool, keys: Seq<u64>) -> bool {
    &&& keys.len() == scorers.len()
    &&& forall|i: int| 0 <= i < keys.len() && !weighted && scorers[i] == Scorer::Uniform ==> #[trigger] keys[i] == 1
}

/// One key per child: its score, or a weighted random draw.
fn child_keys<H: Host>(children: &Vec<(Node, Scorer)>, weighted: bool, host: &mut Recorder<H>) -> (r: Vec<u64>)
    ensures
        extends(old(host).journal(), final(host).journal()),
        r@.len() == children@.len(),
        keys_fit(scorers_of(children@), weighted, r@),
        final(host).journal() == old(host).journal() + key_calls(scorers_of(children@), weighted, r@),
{
    let ghost start = host.journal();
    let mut keys: Vec<u64> = Vec::new();
    let mut i: usize = 0;
    while i < children.len()
        invariant
            i <= children@.len(),
            keys@.len() == i,
            extends(old(host).journal(), host.journal()),
            start == old(host).journal(),
            keys_fit(scorers_of(children@).subrange(0, i as int), weighted, keys@),
            host.journal() == start + key_calls(scorers_of(children@).subrange(0, i as int), weighted, keys@),
        decreases children.len() - i,
    {
        let scorer = children[i].1;
        let key = if weighted {
            host.weighted_key(scorer)
        } else {
            match scorer {
                Scorer::Uniform => 1,
                Scorer::Host(id) => host.score_node(id),
            }
        };
        let ghost prefix = scorers_of(children@).subrange(0, i as int);
        let ghost earlier = keys@;
        keys.push(key);
        proof {
            let longer = scorers_of(children@).subrange(0, i + 1);
            assert(longer.drop_last() =~= prefix);
            assert(keys@.drop_last() =~= earlier);
            assert(longer.last() == scorer);
            assert(host.journal() =~= start + key_calls(longer, weighted, keys@));
        }
        i = i + 1;
    }
    assert(scorers_of(children@).subrange(0, i as int) =~= scorers_of(children@));
    keys
}

/// Every picked index names a child and every child has a slot.
pub open spec fn scored_in_range(children: Seq<(Node, Scorer)>, st: ScoredSequenceState) -> bool {
    &&& st.results@.len() == children.len()
    &&& forall|i: int| 0 <= i < st.indices@.len() ==> #[trigger] st.indices@[i] < children.len()
}

/// Whether every picked index names a child and every child has a slot.
fn scored_state_in_range(children: &Vec<(Node, Scorer)>, st: &ScoredSequenceState) -> (b: bool)
    ensures
        b == scored_in_range(children@, *st),
{
    if st.results.len() != children.len() {
        return false;
    }
    let mut i: usize = 0;
    while i < st.indices.len()
        invariant
            i <= st.indices@.len(),
            forall|k: int| 0 <= k < i ==> #[trigger] st.indices@[k] < children@.len(),
        decreases st.indices.len() - i,
    {
        if st.indices[i] >= children.len() {
            return false;
        }
        i = i + 1;
    }
    true
}

/// What a freeze node returns for what its child returned.
pub open spec fn freeze_wraps(inner: NodeStatus) -> NodeStatus {
    match inner {
        NodeStatus::Pending(s) => NodeStatus::Pending(NodeState::Freeze { child: Some(Box::new(s)) }),
        other => other,
    }
}

/// On a tick where its condition holds, a freeze node runs its child once
/// (begun, or resumed from `pending`) and passes on what the child returned.
pub open spec fn gate_passes(
    child: Node,
    checker: u64,
    pending: Option<Box<NodeState>>,
    before: Seq<HostCall>,
    after: Seq<HostCall>,
    r: Result<NodeStatus, NodeStateError>,
) -> bool
    decreases child, 4nat,
{
    r is Ok && after.len() > before.len() && after[before.len() as int] == HostCall::Condition(checker, true)
        ==> exists|inner: NodeStatus|
        #[trigger] chosen(inner) && child_ran(child, pending, before.push(HostCall::Condition(checker, true)), after, inner) && r
            == Ok::<NodeStatus, NodeStateError>(freeze_wraps(inner))
}

/// A loop entered its child from the loop state `state`, taking the journal
/// from `before` to `after`: the child was begun; if it completed, the
/// condition was asked on the recorded state and the loop either completed
/// with the child's result or became ready to enter the child again on the
/// next tick.
pub open spec fn loop_entered(
    child: Node,
    condition: LoopCondChecker,
    state: LoopState,
    before: Seq<HostCall>,
    after: Seq<HostCall>,
    r: Result<NodeStatus, NodeStateError>,
) -> bool
    decreases child, 3nat,
{
    exists|inner: NodeStatus, mid: Seq<HostCall>|
        #[trigger] chosen((inner, mid)) && begun(child, before, mid, Ok(inner)) && match inner {
            NodeStatus::Pending(s) => after == mid && r == Ok::<NodeStatus, NodeStateError>(
                NodeStatus::Pending(NodeState::Loop { loop_state: state, child: Some(Box::new(s)) }),
            ),
            NodeStatus::Complete(x) => exists|allowed: bool|
                #![trigger condition.asked(state.recorded(x), allowed)]
                (condition.decided(state.recorded(x)) matches Some(v) ==> allowed == v) && after == mid
                    + condition.asked(state.recorded(x), allowed) && r == Ok::<NodeStatus, NodeStateError>(
                    if allowed {
                        NodeStatus::Pending(NodeState::Loop { loop_state: state.recorded(x), child: None })
                    } else {
                        NodeStatus::Complete(x)
                    },
                ),
            _ => false,
        }
}

/// A loop whose child was pending with `pending` resumed it, taking the
/// journal from `before` to `after`: if the child completed, the condition
/// was asked on the recorded state, and the loop either completed with the
/// child's result or entered the child again in the same tick.
pub open spec fn loop_resumed(
    child: Node,
    condition: LoopCondChecker,
    state: LoopState,
    pending: NodeState,
    before: Seq<HostCall>,
    after: Seq<HostCall>,
    r: Result<NodeStatus, NodeStateError>,
) -> bool
    decreases child, 4nat,
{
    exists|inner: NodeStatus, mid: Seq<HostCall>|
        #[trigger] chosen((inner, mid)) && resumed(child, pending, before, mid, Ok(inner)) && match inner {
            NodeStatus::Pending(s) => after == mid && r == Ok::<NodeStatus, NodeStateError>(
                NodeStatus::Pending(NodeState::Loop { loop_state: state, child: Some(Box::new(s)) }),
            ),
            NodeStatus::Complete(x) => exists|allowed: bool|
                #![trigger condition.asked(state.recorded(x), allowed)]
                (condition.decided(state.recorded(x)) matches Some(v) ==> allowed == v) && if allowed {
                    loop_entered(child, condition, state.recorded(x), mid + condition.asked(state.recorded(x), allowed), after, r)
                } else {
                    after == mid + condition.asked(state.recorded(x), allowed) && r == Ok::<NodeStatus, NodeStateError>(
                        NodeStatus::Complete(x),
                    )
                },
            _ => false,
        }
}

/// What `begin` guarantees of `node`, from the journal `before` to `after`,
/// in the clauses that do not look into its children.
pub open spec fn begun_base(
    node: Node,
    before: Seq<HostCall>,
    after: Seq<HostCall>,
    r: Result<NodeStatus, NodeStateError>,
) -> bool
{
    &&& extends(before, after)
    &&& r matches Ok(status) && yields(node, status)
    &&& node matches Node::Task { task } ==> exists|status: TaskStatus|
        after == before.push(HostCall::Event(task, TaskEvent::Enter)) + poll_calls(
            task,
            status,
        ) && r == Ok::<NodeStatus, NodeStateError>(task_outcome(status))
    &&& node matches Node::Quick { result } ==> after == before && r == Ok::<NodeStatus, NodeStateError>(
        NodeStatus::Complete(result),
    )
    &&& node matches Node::CheckIf { checker } ==> exists|holds: bool|
        after == before.push(HostCall::Condition(checker, holds)) && r
            == Ok::<NodeStatus, NodeStateError>(NodeStatus::Complete(
            if holds { NodeResult::Success } else { NodeResult::Failure },
        ))
    &&& node matches Node::Convert { converter, .. } ==> (r matches Ok(status) ==> exists|inner: NodeStatus|
        status == converter.converts(inner))
    &&& node matches Node::Freeze { checker, .. } ==> gate_holds(
        checker,
        None,
        before,
        after,
        r,
    )
    &&& node matches Node::Parallel { strategy, .. } ==> parallel_undecided(strategy, r)
    &&& node matches Node::Loop { condition, .. } ==> (r matches Ok(status) ==> condition.follows(
        LoopState::initial(),
        status,
    ))
}

/// What `begin` guarantees of `node`, from the journal `before` to `after`.
pub open spec fn begun(
    node: Node,
    before: Seq<HostCall>,
    after: Seq<HostCall>,
    r: Result<NodeStatus, NodeStateError>,
) -> bool
    decreases node, 2nat,
{
    &&& begun_base(node, before, after, r)
    &&& node matches Node::Parallel { children, strategy } ==> parallel_ends(
        children@,
        strategy,
        Seq::new(children@.len(), |i: int| NodeStatus::Beginning),
        before,
        after,
        r,
    )
    &&& node matches Node::Convert { child, converter } ==> (r matches Ok(status) ==> exists|inner: NodeStatus|
        #[trigger] chosen(inner) && begun(*child, before, after, Ok(inner)) && status == converter.converts(inner))
    &&& node matches Node::Freeze { child, checker } ==> gate_passes(*child, checker, None, before, after, r)
    &&& node matches Node::Loop { child, condition } ==> exists|allowed: bool|
        #![trigger condition.asked(LoopState::initial(), allowed)]
        (condition.decided(LoopState::initial()) matches Some(v) ==> allowed == v) && if allowed {
            loop_entered(*child, condition, LoopState::initial(), before + condition.asked(LoopState::initial(), allowed), after, r)
        } else {
            after == before + condition.asked(LoopState::initial(), allowed) && r == Ok::<NodeStatus, NodeStateError>(
                NodeStatus::Complete(NodeResult::Failure),
            )
        }
    &&& node matches Node::Scored { nodes, picker, constructor } ==> (r matches Ok(status)
        ==> exists|keys: Seq<u64>, indices: Seq<usize>, scored: Seq<HostCall>|
        #[trigger] chosen((keys, indices, scored)) && keys_fit(scorers_of(nodes@), picker.spec_is_weighted(), keys)
            && scored == before + key_calls(scorers_of(nodes@), picker.spec_is_weighted(), keys) && picker.picks(keys, indices)
            && scored_ran(
        nodes@,
        constructor,
        SequenceProgress::start(indices, nodes@.len()),
        None,
        scored,
        after,
        status,
    ))
}

/// What `resume` guarantees of `node` from `state`, from the journal
/// `before` to `after`, in the clauses that do not look into its children.
pub open spec fn resumed_base(
    node: Node,
    state: NodeState,
    before: Seq<HostCall>,
    after: Seq<HostCall>,
    r: Result<NodeStatus, NodeStateError>,
) -> bool
{
    &&& extends(before, after)
    &&& fits(node, state) ==> (r matches Ok(status) && yields(node, status))
    &&& node matches Node::Parallel { strategy, .. } ==> parallel_undecided(strategy, r)
    &&& node matches Node::Loop { condition, .. } ==> (state matches NodeState::Loop { loop_state, .. }
        ==> (r matches Ok(status) ==> condition.follows(loop_state, status)))
    &&& node is Freeze ==> (state matches NodeState::Freeze { child: Some(_) } ==> entered_stays(r))
    &&& node matches Node::Freeze { checker, .. } ==> (state matches NodeState::Freeze { child: pending }
        ==> gate_holds(checker, pending, before, after, r))
    &&& node matches Node::Task { task } ==> (state is Task ==> exists|status: TaskStatus|
        after == before + poll_calls(task, status) && r == Ok::<
            NodeStatus,
            NodeStateError,
        >(task_outcome(status)))
    &&& node matches Node::Convert { converter, .. } ==> (r matches Ok(status) ==> exists|inner: NodeStatus|
        status == converter.converts(inner))
    &&& !kind_fits(node, state) ==> (r == Err::<NodeStatus, NodeStateError>(NodeStateError::InvalidTypeOfState)
        && after == before)
}

/// What `resume` guarantees of `node` from `state`, from the journal
/// `before` to `after`.
pub open spec fn resumed(
    node: Node,
    state: NodeState,
    before: Seq<HostCall>,
    after: Seq<HostCall>,
    r: Result<NodeStatus, NodeStateError>,
) -> bool
    decreases node, 2nat,
{
    &&& resumed_base(node, state, before, after, r)
    &&& node matches Node::Parallel { children, strategy } ==> (state matches NodeState::Parallel(ps)
        ==> parallel_ends(children@, strategy, ps.children_status@, before, after, r))
    &&& node matches Node::Convert { child, converter } ==> (r matches Ok(status) ==> exists|inner: NodeStatus|
        #[trigger] chosen(inner) && resumed(*child, state, before, after, Ok(inner)) && status == converter.converts(inner))
    &&& node matches Node::Freeze { child, checker } ==> (state matches NodeState::Freeze { child: pending }
        ==> gate_passes(*child, checker, pending, before, after, r))
    &&& node matches Node::Loop { child, condition } ==> (r is Ok ==> match state {
        NodeState::Loop { loop_state, child: None } => loop_entered(*child, condition, loop_state, before, after, r),
        NodeState::Loop { loop_state, child: Some(s) } => loop_resumed(*child, condition, loop_state, *s, before, after, r),
        _ => true,
    })
    &&& node matches Node::Scored { nodes, constructor, .. } ==> (state matches NodeState::Scored(st)
        ==> (r matches Ok(status) ==> scored_ran(nodes@, constructor, st@, st.child_state, before, after, status)))
}

/// What `force_exit` guarantees of `node` from `state`, from the journal
/// `before` to `after`.
pub open spec fn exited(
    node: Node,
    state: NodeState,
    before: Seq<HostCall>,
    after: Seq<HostCall>,
    r: Result<(), NodeStateError>,
) -> bool {
    &&& extends(before, after)
    &&& fits(node, state) ==> (r is Ok && after == before + exit_calls(
        open_tasks(node, state),
    ))
    &&& !kind_fits(node, state) ==> (r == Err::<(), NodeStateError>(NodeStateError::InvalidTypeOfState)
        && after == before)
}

impl Node {
    /// Starts a fresh evaluation of this node.
    pub fn begin<H: Host>(&self, host: &mut Recorder<H>) -> (r: Result<NodeStatus, NodeStateError>)
        ensures
            begun(*self, old(host).journal(), final(host).journal(), r),
        decreases *self, 0nat,
    {
        match self {
            Node::Task { task } => {
                host.trigger_event(*task, TaskEvent::Enter);
                Ok(poll_task(*task, host))
            },
            Node::Quick { result } => Ok(NodeStatus::Complete(*result)),
            Node::CheckIf { checker } => {
                let holds = host.check_condition(*checker);
                Ok(NodeStatus::Complete(if holds { NodeResult::Success } else { NodeResult::Failure }))
            },
            Node::Convert { child, converter } => {
                let status = child.begin(host)?;
                assert(chosen(status));
                Ok(converter.convert(status))
            },
            Node::Loop { child, condition: checker } => {
                let state = LoopState::new();
                let allowed = checker.check(host, state);
                if !allowed {
                    return Ok(NodeStatus::Complete(NodeResult::Failure));
                }
                enter_loop_child(child, checker, state, host)
            },
            Node::Freeze { child, checker } => gate_tick(child, *checker, None, host),
            Node::Scored { nodes: children, picker, constructor } => {
                let keys = child_keys(children, picker.is_weighted(), host);
                let indices = picker.pick(&keys);
                let ghost picked = indices@;
                let ghost before_run = host.journal();
                let state = ScoredSequenceState::new(indices, children.len());
                let r = scored_run(children, *picker, *constructor, state, host);
                assert(chosen((keys@, picked, before_run)));
                assert(r matches Ok(status) ==> picker.picks(keys@, picked) && scored_ran(
                    children@,
                    *constructor,
                    SequenceProgress::start(picked, children@.len() as nat),
                    None,
                    before_run,
                    host.journal(),
                    status,
                ));
                r
            },
            Node::Parallel { children, strategy } => {
                let mut statuses: Vec<NodeStatus> = Vec::new();
                let mut i: usize = 0;
                while i < children.len()
                    invariant
                        i <= children@.len(),
                        statuses@.len() == i,
                        forall|k: int| 0 <= k < i ==> #[trigger] statuses@[k] is Beginning,
                    decreases children.len() - i,
                {
                    statuses.push(NodeStatus::Beginning);
                    i = i + 1;
                }
                assert(statuses@ =~= Seq::new(children@.len(), |i: int| NodeStatus::Beginning));
                parallel_tick(children, *strategy, ParallelState { children_status: statuses }, host)
            },
        }
    }

    /// Continues an evaluation from the state this node returned as pending.
    pub fn resume<H: Host>(&self, host: &mut Recorder<H>, state: NodeState) -> (r: Result<NodeStatus, NodeStateError>)
        ensures
            resumed(*self, state, old(host).journal(), final(host).journal(), r),
        decreases *self, 0nat,
    {
        match self {
            Node::Task { task } => match state {
                NodeState::Task => Ok(poll_task(*task, host)),
                _ => Err(NodeStateError::InvalidTypeOfState),
            },
            Node::CheckIf { .. } | Node::Quick { .. } => Err(NodeStateError::InvalidTypeOfState),
            Node::Convert { child, converter } => {
                let status = child.resume(host, state)?;
                assert(chosen(status));
                Ok(converter.convert(status))
            },
            Node::Loop { child, condition: checker } => match state {
                NodeState::Loop { loop_state, child: pending } => match pending {
                    None => enter_loop_child(child, checker, loop_state, host),
                    Some(s) => {
                    let ghost before = host.journal();
                    let ghost resumed_from = *s;
                    let inner = child.resume(host, *s)?;
                    let ghost mid = host.journal();
                    assert(resumed(**child, resumed_from, before, mid, Ok(inner)));
                    assert(chosen((inner, mid)));
                    match inner {
                        NodeStatus::Pending(s) => {
                            assert(checker.reach(loop_state, Seq::<NodeResult>::empty()) == Some(loop_state));
                            let r = Ok(
                                NodeStatus::Pending(
                                    NodeState::Loop { loop_state, child: Some(Box::new(s)) },
                                ),
                            );
                            assert(loop_resumed(**child, *checker, loop_state, resumed_from, before, host.journal(), r));
                            r
                        },
                        NodeStatus::Complete(result) => {
                            let next = loop_state.update(result);
                            assert(checker.reach(loop_state, Seq::<NodeResult>::empty()) == Some(loop_state));
                            let allowed = checker.check(host, next);
                            if !allowed {
                                let r = Ok(NodeStatus::Complete(result));
                                assert(loop_resumed(**child, *checker, loop_state, resumed_from, before, host.journal(), r));
                                r
                            } else {
                                let r = enter_loop_child(child, checker, next, host);
                                assert(loop_resumed(**child, *checker, loop_state, resumed_from, before, host.journal(), r));
                                proof {
                                    if r is Ok {
                                        checker.lemma_follows_through(loop_state, result, r->Ok_0);
                                    }
                                }
                                r
                            }
                        },
                        NodeStatus::Beginning => Err(NodeStateError::InvalidTypeOfState),
                    }
                    },
                },
                _ => Err(NodeStateError::InvalidTypeOfState),
            },
            Node::Freeze { child, checker } => match state {
                NodeState::Freeze { child: pending } => gate_tick(child, *checker, pending, host),
                _ => Err(NodeStateError::InvalidTypeOfState),
            },
            Node::Scored { nodes: children, picker, constructor } => match state {
                NodeState::Scored(st) => scored_run(children, *picker, *constructor, st, host),
                _ => Err(NodeStateError::InvalidTypeOfState),
            },
            Node::Parallel { children, strategy } => match state {
                NodeState::Parallel(ps) => parallel_tick(children, *strategy, ps, host),
                _ => Err(NodeStateError::InvalidTypeOfState),
            },
        }
    }

    /// Abandons a pending evaluation: every task still entered on the
    /// pending path gets its `Exit` event, and no other event fires.
    pub fn force_exit<H: Host>(&self, host: &mut Recorder<H>, state: NodeState) -> (r: Result<(), NodeStateError>)
        ensures
            exited(*self, state, old(host).journal(), final(host).journal(), r),
        decreases *self, 0nat,
    {
        let ghost before = host.journal();
        proof {
            lemma_no_exits(host.journal());
        }
        match self {
            Node::Task { task } => match state {
                NodeState::Task => {
                    host.trigger_event(*task, TaskEvent::Exit);
                    assert(exit_calls(seq![*task]) =~= seq![HostCall::Event(*task, TaskEvent::Exit)]);
                    assert(host.journal() =~= before + exit_calls(seq![*task]));
                    Ok(())
                },
                _ => Err(NodeStateError::InvalidTypeOfState),
            },
            Node::CheckIf { .. } | Node::Quick { .. } => Err(NodeStateError::InvalidTypeOfState),
            Node::Convert { child, .. } => child.force_exit(host, state),
            Node::Loop { child, .. } => match state {
                NodeState::Loop { child: pending, .. } => match pending {
                    Some(s) => child.force_exit(host, *s),
                    None => Ok(()),
                },
                _ => Err(NodeStateError::InvalidTypeOfState),
            },
            Node::Freeze { child, .. } => match state {
                NodeState::Freeze { child: pending } => match pending {
                    Some(s) => child.force_exit(host, *s),
                    None => Ok(()),
                },
                _ => Err(NodeStateError::InvalidTypeOfState),
            },
            Node::Scored { nodes: children, .. } => match state {
                NodeState::Scored(st) => {
                    if st.count >= st.indices.len() {
                        return Err(NodeStateError::InvalidTypeOfState);
                    }
                    let index = st.indices[st.count];
                    if index >= children.len() {
                        return Err(NodeStateError::InvalidTypeOfState);
                    }
                    match st.child_state {
                        Some(s) => children[index].0.force_exit(host, *s),
                        None => Ok(()),
                    }
                },
                _ => Err(NodeStateError::InvalidTypeOfState),
            },
            Node::Parallel { children, .. } => match state {
                NodeState::Parallel(ps) => {
                    if ps.children_status.len() != children.len() {
                        return Err(NodeStateError::InvalidTypeOfState);
                    }
                    force_exit_pending(children, ps.children_status, host)
                },
                _ => Err(NodeStateError::InvalidTypeOfState),
            },
        }
    }
}

/// Enters the child of a loop whose condition allowed it. When the child
/// completes at once and the condition, asked on the recorded state, allows
/// another iteration, the loop waits ready and enters the child on the next
/// tick without asking again, so that one tick begins a loop's child at
/// most once.
fn enter_loop_child<H: Host>(
    child: &Box<Node>,
    checker: &LoopCondChecker,
    state: LoopState,
    host: &mut Recorder<H>,
) -> (r: Result<NodeStatus, NodeStateError>)
    ensures
        extends(old(host).journal(), final(host).journal()),
        r is Ok,
        r matches Ok(status) ==> yields(Node::Loop { child: *child, condition: *checker }, status),
        r matches Ok(status) ==> checker.follows(state, status),
        loop_entered(**child, *checker, state, old(host).journal(), final(host).journal(), r),
    decreases **child, 1nat,
{
    assert(checker.reach(state, Seq::<NodeResult>::empty()) == Some(state));
    let ghost before = host.journal();
    let status = child.begin(host)?;
    assert(begun(**child, before, host.journal(), Ok(status)));
    assert(chosen((status, host.journal())));
    match status {
        NodeStatus::Pending(s) => Ok(
            NodeStatus::Pending(NodeState::Loop { loop_state: state, child: Some(Box::new(s)) }),
        ),
        NodeStatus::Complete(result) => {
            let next = state.update(result);
            let allowed = checker.check(host, next);
            if !allowed {
                Ok(NodeStatus::Complete(result))
            } else {
                proof {
                    let once = seq![result];
                    assert(once[0] == result);
                    assert(once.drop_first() =~= Seq::<NodeResult>::empty());
                    assert(checker.may_continue(next));
                    assert(checker.reach(next, Seq::<NodeResult>::empty()) == Some(next));
                    assert(checker.reach(state, once) == Some(next));
                }
                Ok(NodeStatus::Pending(NodeState::Loop { loop_state: next, child: None }))
            }
        },
        NodeStatus::Beginning => Err(NodeStateError::InvalidTypeOfState),
    }
}

/// One tick of a freeze gate whose child is pending with `pending`, or not
/// entered yet.
fn gate_tick<H: Host>(
    child: &Box<Node>,
    checker: u64,
    pending: Option<Box<NodeState>>,
    host: &mut Recorder<H>,
) -> (r: Result<NodeStatus, NodeStateError>)
    ensures
        extends(old(host).journal(), final(host).journal()),
        (pending matches Some(s) ==> fits(**child, *s)) ==> (r matches Ok(status) && yields(
            Node::Freeze { child: *child, checker },
            status,
        )),
        pending is Some ==> entered_stays(r),
        gate_holds(checker, pending, old(host).journal(), final(host).journal(), r),
        gate_passes(**child, checker, pending, old(host).journal(), final(host).journal(), r),
    decreases **child, 1nat,
{
    let open = host.check_condition(checker);
    let action = gate_action(open, pending.is_some());
    if action == GateAction::Hold {
        return Ok(NodeStatus::Pending(NodeState::Freeze { child: pending }));
    }
    let ghost mid = host.journal();
    let ghost pending_now = pending;
    let status = match pending {
        None => child.begin(host)?,
        Some(s) => child.resume(host, *s)?,
    };
    assert(child_ran(**child, pending_now, mid, host.journal(), status));
    assert(chosen(status));
    match status {
        NodeStatus::Pending(s) => Ok(NodeStatus::Pending(NodeState::Freeze { child: Some(Box::new(s)) })),
        NodeStatus::Complete(result) => Ok(NodeStatus::Complete(result)),
        NodeStatus::Beginning => Err(NodeStateError::InvalidTypeOfState),
    }
}

/// The running child's state, if any, is one the child can resume.
pub open spec fn scored_resumable(children: Seq<(Node, Scorer)>, state: ScoredSequenceState) -> bool {
    match state.child_state {
        Some(s) => {
            &&& state.count < state.indices@.len()
            &&& fits(children[state.indices@[state.count as int] as int].0, *s)
        },
        None => true,
    }
}

/// Runs a scored sequence from `state`: visits the picked children one at
/// a time until one is pending or the constructor completes the sequence.
fn scored_run<H: Host>(
    children: &Vec<(Node, Scorer)>,
    picker: Picker,
    constructor: ResultConstructor,
    state: ScoredSequenceState,
    host: &mut Recorder<H>,
) -> (r: Result<NodeStatus, NodeStateError>)
    ensures
        extends(old(host).journal(), final(host).journal()),
        scored_in_range(children@, state) && scored_resumable(children@, state) ==> (r matches Ok(status) && yields(
            Node::Scored { nodes: *children, picker, constructor },
            status,
        )),
        r matches Ok(status) ==> scored_ran(
            children@,
            constructor,
            state@,
            state.child_state,
            old(host).journal(),
            final(host).journal(),
            status,
        ),
    decreases *children, 1nat,
{
    let ghost owed = scored_resumable(children@, state);
    let ghost from = state@;
    let ghost pending0 = state.child_state;
    let ghost start = host.journal();
    if !scored_state_in_range(children, &state) {
        return Err(NodeStateError::InvalidTypeOfState);
    }
    let mut cur = state;
    let ghost mut outcomes: Seq<NodeResult> = Seq::empty();
    let ghost mut cuts: Seq<int> = seq![start.len() as int];
    loop
        invariant
            owed == scored_resumable(children@, state),
            scored_in_range(children@, state),
            from == state@,
            pending0 == state.child_state,
            start == old(host).journal(),
            extends(start, host.journal()),
            state@.run(constructor, outcomes) == (cur@, None::<NodeResult>),
            cur@.count == from.count + outcomes.len(),
            cur@.indices == from.indices,
            outcomes.len() == 0 ==> cur@ == state@ && cur.child_state == pending0 && host.journal() == start,
            outcomes.len() > 0 ==> cur@.count < cur@.indices.len() && cur.child_state is None,
            cuts.len() == outcomes.len() + 1,
            cuts[0] == start.len(),
            cuts.last() == host.journal().len(),
            forall|j: int|
                0 <= j < outcomes.len() ==> visit_ran(
                    children@,
                    from,
                    pending0,
                    host.journal(),
                    cuts,
                    j,
                    NodeStatus::Complete(#[trigger] outcomes[j]),
                ),
            cur.results@.len() == children@.len(),
            forall|i: int| 0 <= i < cur.indices@.len() ==> #[trigger] cur.indices@[i] < children@.len(),
            owed ==> scored_resumable(children@, cur),
        decreases cur.indices@.len() - cur.count,
    {
        if cur.count >= cur.indices.len() {
            let result = constructor.construct(&cur);
            assert(chosen((outcomes, cuts)));
            assert(scored_trace(
                children@,
                constructor,
                from,
                pending0,
                start,
                host.journal(),
                NodeStatus::Complete(result),
                outcomes,
                cuts,
            ));
            return Ok(NodeStatus::Complete(result));
        }
        let index = cur.indices[cur.count];
        let (visiting, pending) = cur.extract_child_state();
        let child = &children[index].0;
        assert(pending matches Some(s) ==> (owed ==> fits(*child, *s)));
        let ghost mid = host.journal();
        let ghost pending_now = pending;
        let status = match pending {
            None => child.begin(host)?,
            Some(s) => child.resume(host, *s)?,
        };
        proof {
            let now = host.journal();
            assert(now.subrange(0, mid.len() as int) =~= mid);
            assert(now.subrange(0, now.len() as int) =~= now);
            assert(child_ran(*child, pending_now, mid, now, status));
            assert(pending_now == (if outcomes.len() == 0 { pending0 } else { None }));
            let longer = cuts.push(now.len() as int);
            assert(visit_ran(children@, from, pending0, now, longer, outcomes.len() as int, status));
            assert forall|j: int| 0 <= j < outcomes.len() implies visit_ran(
                children@,
                from,
                pending0,
                now,
                longer,
                j,
                NodeStatus::Complete(#[trigger] outcomes[j]),
            ) by {
                lemma_visit_stable(children@, from, pending0, mid, now, cuts, longer, j, NodeStatus::Complete(outcomes[j]));
            }
        }
        match status {
            NodeStatus::Pending(s) => {
                let next = visiting.update_pending(s);
                assert(chosen((outcomes, cuts)));
            assert(scored_trace(
                    children@,
                    constructor,
                    from,
                    pending0,
                    start,
                    host.journal(),
                    NodeStatus::Pending(NodeState::Scored(next)),
                    outcomes,
                    cuts,
                ));
                return Ok(NodeStatus::Pending(NodeState::Scored(next)));
            },
            NodeStatus::Complete(result) => {
                let (next, done) = visiting.advance(constructor, result);
                proof {
                    let earlier = outcomes;
                    lemma_run_extend(state@, constructor, outcomes, result);
                    outcomes = outcomes.push(result);
                    cuts = cuts.push(host.journal().len() as int);
                    assert(outcomes.drop_last() =~= earlier);
                    assert forall|j: int| 0 <= j < outcomes.len() implies visit_ran(
                        children@,
                        from,
                        pending0,
                        host.journal(),
                        cuts,
                        j,
                        NodeStatus::Complete(#[trigger] outcomes[j]),
                    ) by {
                        if j < earlier.len() {
                            assert(outcomes[j] == earlier[j]);
                        }
                    }
                }
                match done {
                    Some(r) => {
                        assert(state@.run(constructor, outcomes).1 == Some(r));
                        assert(chosen((outcomes, cuts)));
            assert(scored_trace(
                            children@,
                            constructor,
                            from,
                            pending0,
                            start,
                            host.journal(),
                            NodeStatus::Complete(r),
                            outcomes,
                            cuts,
                        ));
                        return Ok(NodeStatus::Complete(r));
                    },
                    None => {
                        cur = next;
                    },
                }
            },
            NodeStatus::Beginning => {
                return Err(NodeStateError::InvalidTypeOfState);
            },
        }
    }
}

/// A visit recorded against a journal stays recorded as the journal grows
/// and as further cuts are added.
proof fn lemma_visit_stable(
    nodes: Seq<(Node, Scorer)>,
    from: SequenceProgress,
    pending: Option<Box<NodeState>>,
    after: Seq<HostCall>,
    later: Seq<HostCall>,
    cuts: Seq<int>,
    longer: Seq<int>,
    j: int,
    status: NodeStatus,
)
    requires
        visit_ran(nodes, from, pending, after, cuts, j, status),
        extends(after, later),
        longer.len() == cuts.len() + 1,
        forall|i: int| 0 <= i < cuts.len() ==> longer[i] == cuts[i],
    ensures
        visit_ran(nodes, from, pending, later, longer, j, status),
{
    assert(later.subrange(0, cuts[j]) =~= after.subrange(0, cuts[j]));
    assert(later.subrange(0, cuts[j + 1]) =~= after.subrange(0, cuts[j + 1]));
}

/// One tick of a parallel node: completes if the strategy already decides;
/// else advances every running child once, in declared order, and asks the
/// strategy again. On completion every child still pending is force-exited.
fn parallel_tick<H: Host>(
    children: &Vec<Node>,
    strategy: JoinStrategy,
    state: ParallelState,
    host: &mut Recorder<H>,
) -> (r: Result<NodeStatus, NodeStateError>)
    ensures
        extends(old(host).journal(), final(host).journal()),
        fits(Node::Parallel { children: *children, strategy }, NodeState::Parallel(state)) ==> (r matches Ok(
            status,
        ) && yields(Node::Parallel { children: *children, strategy }, status)),
        parallel_undecided(strategy, r),
        parallel_ends(children@, strategy, state.children_status@, old(host).journal(), final(host).journal(), r),
    decreases *children, 1nat,
{
    let ghost owed = fits(Node::Parallel { children: *children, strategy }, NodeState::Parallel(state));
    if state.children_status.len() != children.len() {
        return Err(NodeStateError::InvalidTypeOfState);
    }
    let results = state.results();
    match strategy.join(&results) {
        Some(result) => {
            force_exit_pending(children, state.children_status, host)?;
            return Ok(NodeStatus::Complete(result));
        },
        None => {},
    }
    let n = children.len();
    let ghost start = host.journal();
    let mut rest = state.children_status;
    let ghost before = rest@;
    let ghost mut cuts: Seq<int> = seq![start.len() as int];
    let mut advanced: Vec<NodeStatus> = Vec::new();
    let mut i: usize = 0;
    while i < n
        invariant
            n == children@.len(),
            before.len() == n,
            i <= n,
            rest@ == before.subrange(i as int, n as int),
            advanced@.len() == i,
            owed == fits(Node::Parallel { children: *children, strategy }, NodeState::Parallel(state)),
            extends(old(host).journal(), host.journal()),
            forall|k: int| 0 <= k < i ==> (#[trigger] before[k] matches NodeStatus::Complete(y) ==> advanced@[k]
                == NodeStatus::Complete(y)),
            before == state.children_status@,
            owed ==> forall|k: int| 0 <= k < i ==> yields(children@[k], #[trigger] advanced@[k]),
            start == old(host).journal(),
            cuts.len() == i + 1,
            cuts[0] == start.len(),
            cuts[i as int] == host.journal().len(),
            forall|k: int| 0 <= k < i ==> #[trigger] advanced_ran(children@, before, advanced@, host.journal(), cuts, k),
            owed ==> forall|k: int|
                0 <= k < n ==> match #[trigger] before[k] {
                    NodeStatus::Pending(s) => fits(children@[k], s),
                    _ => true,
                },
        decreases n - i,
    {
        assert(rest@[0] == before[i as int]);
        let status = rest.remove(0);
        assert(status == before[i as int]);
        assert(rest@ =~= before.subrange(i + 1, n as int));
        let ghost mid = host.journal();
        let ghost earlier_advanced = advanced@;
        let next = match status {
            NodeStatus::Beginning => children[i].begin(host)?,
            NodeStatus::Pending(s) => children[i].resume(host, s)?,
            NodeStatus::Complete(result) => NodeStatus::Complete(result),
        };
        advanced.push(next);
        proof {
            let journal = host.journal();
            let longer = cuts.push(journal.len() as int);
            assert(journal.subrange(0, mid.len() as int) =~= mid);
            assert(journal.subrange(0, journal.len() as int) =~= journal);
            assert(advanced@[i as int] == next);
            assert(advanced_ran(children@, before, advanced@, journal, longer, i as int));
            assert forall|k: int| 0 <= k < i + 1 implies #[trigger] advanced_ran(children@, before, advanced@, journal, longer, k) by {
                if k < i {
                    assert(advanced_ran(children@, before, earlier_advanced, mid, cuts, k));
                    assert(advanced@[k] == earlier_advanced[k]);
                    assert(journal.subrange(0, cuts[k]) =~= mid.subrange(0, cuts[k]));
                    assert(journal.subrange(0, cuts[k + 1]) =~= mid.subrange(0, cuts[k + 1]));
                }
            }
            cuts = longer;
        }
        i = i + 1;
    }
    let ghost now = advanced@;
    let ghost journal = host.journal();
        assert forall|k: int| 0 <= k < n implies #[trigger] chosen(k) && advanced_ran(children@, before, now, journal, cuts, k) by {
            assert(advanced_ran(children@, before, now, journal, cuts, k));
        }
        assert(parallel_ran(children@, before, now, start, journal, cuts));
    let next_state = ParallelState { children_status: advanced };
    let results = next_state.results();
    match strategy.join(&results) {
        Some(result) => {
            force_exit_pending(children, next_state.children_status, host)?;
            proof {
                let fin = host.journal();
                assert(fin.subrange(0, journal.len() as int) =~= journal);
                assert forall|k: int| 0 <= k < n implies #[trigger] chosen(k) && advanced_ran(children@, before, now, fin, cuts, k) by {
                    assert(chosen(k));
                    assert(advanced_ran(children@, before, now, journal, cuts, k));
                    assert(fin.subrange(0, cuts[k]) =~= journal.subrange(0, cuts[k]));
                    assert(fin.subrange(0, cuts[k + 1]) =~= journal.subrange(0, cuts[k + 1]));
                }
                assert(parallel_ran(children@, before, now, start, fin, cuts));
                assert(parallel_ran(children@, state.children_status@, now, old(host).journal(), fin, cuts));
                assert(chosen((now, cuts)));
                assert(parallel_ends(
                    children@,
                    strategy,
                    state.children_status@,
                    old(host).journal(),
                    fin,
                    Ok(NodeStatus::Complete(result)),
                ));
            }
            Ok(NodeStatus::Complete(result))
        },
        None => {
            assert(parallel_ran(children@, state.children_status@, next_state.children_status@, old(host).journal(), host.journal(), cuts));
            assert(chosen(cuts));
            let r = Ok(NodeStatus::Pending(NodeState::Parallel(next_state)));
            assert(strategy.joins(results_of(state.children_status@)) is None);
            assert(cuts.last() == host.journal().len());
            assert(r matches Ok(NodeStatus::Pending(NodeState::Parallel(ps))) && ps.children_status@ == now);
            assert(parallel_ends(children@, strategy, state.children_status@, old(host).journal(), host.journal(), r));
            r
        },
    }
}

/// Every pending status is one its child can resume.
pub open spec fn all_resumable(children: Seq<Node>, statuses: Seq<NodeStatus>) -> bool {
    forall|k: int|
        0 <= k < children.len() ==> match #[trigger] statuses[k] {
            NodeStatus::Pending(s) => fits(children[k], s),
            _ => true,
        }
}

/// Force-exits every child whose status is pending, in declared order.
fn force_exit_pending<H: Host>(
    children: &Vec<Node>,
    statuses: Vec<NodeStatus>,
    host: &mut Recorder<H>,
) -> (r: Result<(), NodeStateError>)
    requires
        statuses@.len() == children@.len(),
    ensures
        extends(old(host).journal(), final(host).journal()),
        all_resumable(children@, statuses@) ==> (r is Ok && final(host).journal() == old(host).journal() + exit_calls(
            open_tasks_all(children@, statuses@),
        )),
    decreases *children, 1nat,
{
    let ghost owed = all_resumable(children@, statuses@);
    let n = children.len();
    let ghost before = statuses@;
    let ghost start = host.journal();
    proof {
        assert(children@.subrange(0, n as int) =~= children@);
        assert(before.subrange(0, n as int) =~= before);
    }
    let mut rest = statuses;
    let mut i: usize = 0;
    while i < n
        invariant
            n == children@.len(),
            before.len() == n,
            i <= n,
            rest@ == before.subrange(i as int, n as int),
            owed == all_resumable(children@, statuses@),
            before == statuses@,
            start == old(host).journal(),
            extends(start, host.journal()),
            owed ==> start + exit_calls(open_tasks_all(children@, before)) == host.journal() + exit_calls(
                open_tasks_all(children@.subrange(i as int, n as int), before.subrange(i as int, n as int)),
            ),
            owed ==> forall|k: int|
                0 <= k < n ==> match #[trigger] before[k] {
                    NodeStatus::Pending(s) => fits(children@[k], s),
                    _ => true,
                },
        decreases n - i,
    {
        assert(rest@[0] == before[i as int]);
        let status = rest.remove(0);
        assert(status == before[i as int]);
        assert(rest@ =~= before.subrange(i + 1, n as int));
        proof {
            lemma_all_step(children@, before, i as int);
        }
        match status {
            NodeStatus::Pending(s) => {
                match children[i].force_exit(host, s) {
                    Ok(()) => {},
                    Err(e) => {
                        return Err(e);
                    },
                }
            },
            _ => {},
        }
        proof {
            let first = match before[i as int] {
                NodeStatus::Pending(s) => open_tasks(children@[i as int], s),
                _ => Seq::<u64>::empty(),
            };
            lemma_exit_calls_add(first, open_tasks_all(
                children@.subrange(i + 1, n as int),
                before.subrange(i + 1, n as int),
            ));
        }
        i = i + 1;
    }
    proof {
        assert(children@.subrange(n as int, n as int).len() == 0);
    }
    Ok(())
}

/// Splits off the open tasks of child `i`.
proof fn lemma_all_step(children: Seq<Node>, statuses: Seq<NodeStatus>, i: int)
    requires
        0 <= i < children.len(),
        children.len() == statuses.len(),
    ensures
        open_tasks_all(children.subrange(i, children.len() as int), statuses.subrange(i, statuses.len() as int))
            == (match statuses[i] {
            NodeStatus::Pending(s) => open_tasks(children[i], s),
            _ => Seq::<u64>::empty(),
        }) + open_tasks_all(
            children.subrange(i + 1, children.len() as int),
            statuses.subrange(i + 1, statuses.len() as int),
        ),
{
    let n = children.len() as int;
    assert(children.subrange(i, n).subrange(1, n - i) =~= children.subrange(i + 1, n));
    assert(statuses.subrange(i, n).subrange(1, n - i) =~= statuses.subrange(i + 1, n));
    assert(children.subrange(i, n)[0] == children[i]);
    assert(statuses.subrange(i, n)[0] == statuses[i]);
}

pub proof fn lemma_exit_calls_add(a: Seq<u64>, b: Seq<u64>)
    ensures
        exit_calls(a + b) == exit_calls(a) + exit_calls(b),
{
    assert(exit_calls(a + b) =~= exit_calls(a) + exit_calls(b));
}

pub proof fn lemma_no_exits(a: Seq<HostCall>)
    ensures
        (a + exit_calls(Seq::<u64>::empty())) == a,
{
    assert(a + exit_calls(Seq::<u64>::empty()) =~= a);
}

} // verus!
