//! Leaf tasks: a host checker plus lifecycle events.
use vstd::prelude::*;

use crate::node::{Host, HostCall, Node, NodeResult, NodeState, NodeStatus};
use crate::journal::Recorder;

verus! {

/// What a task checker reports.
#[derive(Debug, Clone, Copy, PartialEq, Eq, Structural)]
pub enum TaskStatus {
    Running,
    Complete(NodeResult),
}

/// Lifecycle events of a task, each with its listeners in the host.
#[derive(Debug, Clone, Copy, PartialEq, Eq, Structural)]
pub enum TaskEvent {
    Enter,
    Exit,
    Success,
    Failure,
}

/// The events a task fires after its checker reported `status`.
pub open spec fn task_events(status: TaskStatus) -> Seq<TaskEvent> {
    match status {
        TaskStatus::Running => seq![],
        TaskStatus::Complete(NodeResult::Success) => seq![TaskEvent::Success, TaskEvent::Exit],
        TaskStatus::Complete(NodeResult::Failure) => seq![TaskEvent::Failure, TaskEvent::Exit],
    }
}

/// What a task returns after its checker reported `status`.
pub open spec fn task_outcome(status: TaskStatus) -> NodeStatus {
    match status {
        TaskStatus::Running => NodeStatus::Pending(NodeState::Task),
        TaskStatus::Complete(r) => NodeStatus::Complete(r),
    }
}

/// The exchanges firing `events` of `task`, in order.
pub open spec fn event_calls(task: u64, events: Seq<TaskEvent>) -> Seq<HostCall> {
    events.map_values(|e: TaskEvent| HostCall::Event(task, e))
}

/// The exchanges of one check of `task` answered with `status`.
pub open spec fn poll_calls(task: u64, status: TaskStatus) -> Seq<HostCall> {
    seq![HostCall::Task(task, status)] + event_calls(task, task_events(status))
}

/// One step of the task bridge: its status, and the events to fire in order.
pub fn task_step(status: TaskStatus) -> (r: (NodeStatus, Vec<TaskEvent>))
    ensures
        r.0 == task_outcome(status),
        r.1@ == task_events(status),
{
    match status {
        TaskStatus::Running => (NodeStatus::Pending(NodeState::Task), Vec::new()),
        TaskStatus::Complete(result) => {
            let mut events: Vec<TaskEvent> = Vec::new();
            match result {
                NodeResult::Success => events.push(TaskEvent::Success),
                NodeResult::Failure => events.push(TaskEvent::Failure),
            }
            events.push(TaskEvent::Exit);
            assert(events@ =~= task_events(status));
            (NodeStatus::Complete(result), events)
        },
    }
}

/// Runs the checker of `task`, then fires the events of the step in order.
pub fn poll_task<H: Host>(task: u64, host: &mut Recorder<H>) -> (r: NodeStatus)
    ensures
        exists|status: TaskStatus|
            final(host).journal() == old(host).journal() + poll_calls(task, status) && r == task_outcome(status),
{
    let ghost before = host.journal();
    let status = host.check_task(task);
    let (next, events) = task_step(status);
    let mut i: usize = 0;
    while i < events.len()
        invariant
            i <= events@.len(),
            events@ == task_events(status),
            host.journal() == before.push(HostCall::Task(task, status)) + event_calls(task, events@.subrange(0, i as int)),
        decreases events.len() - i,
    {
        host.trigger_event(task, events[i]);
        assert(events@.subrange(0, i + 1) =~= events@.subrange(0, i as int).push(events@[i as int]));
        assert(event_calls(task, events@.subrange(0, i + 1)) =~= event_calls(task, events@.subrange(0, i as int)).push(
            HostCall::Event(task, events@[i as int]),
        ));
        i = i + 1;
    }
    assert(events@.subrange(0, i as int) =~= events@);
    assert(host.journal() =~= before + poll_calls(task, status));
    next
}

/// A leaf bridging to a task of the host: its checker decides completion,
/// its listeners receive the lifecycle events.
pub struct TaskBridge;

impl TaskBridge {
    pub fn new(task: u64) -> (r: Node)
        ensures
            r == (Node::Task { task }),
    {
        Node::Task { task }
    }
}

/// A leaf that completes at once with `result`.
pub struct QuickReturn;

impl QuickReturn {
    pub fn new(result: NodeResult) -> (r: Node)
        ensures
            r == (Node::Quick { result }),
    {
        Node::Quick { result }
    }
}

} // verus!
