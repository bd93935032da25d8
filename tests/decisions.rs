use bevior_tree::conditional::{
    gate_action, Always, GateAction, LoopCondChecker, LoopState, RepeatCount, UntilResult,
};
use bevior_tree::converter::ResultConverter;
use bevior_tree::journal::Recorder;
use bevior_tree::node::{Host, NodeResult, NodeState, NodeStatus};
use bevior_tree::parallel::{JoinStrategy, ParallelState};
use bevior_tree::sequential::{
    last_result, pick_identity, pick_max, pick_sorted, score_uniform, Picker, ResultConstructor,
    ScoredSequenceState, Scorer,
};
use bevior_tree::task::{TaskBridge, TaskEvent, TaskStatus};

use NodeResult::{Failure, Success};

/// A host that must never be asked anything.
struct Silent;

impl Host for Silent {
    fn check_task(&mut self, _task: u64) -> TaskStatus {
        panic!("no task expected")
    }
    fn trigger_event(&mut self, _task: u64, _event: TaskEvent) {
        panic!("no event expected")
    }
    fn check_condition(&mut self, _checker: u64) -> bool {
        panic!("no condition expected")
    }
    fn check_loop_condition(&mut self, _checker: u64, _state: LoopState) -> bool {
        panic!("no loop condition expected")
    }
    fn score_node(&mut self, _scorer: u64) -> u64 {
        panic!("no score expected")
    }
    fn weighted_key(&mut self, _scorer: Scorer) -> u64 {
        panic!("no draw expected")
    }
}

#[test]
fn not_swaps_results() {
    assert_eq!(Success.not(), Failure);
    assert_eq!(Failure.not(), Success);
}

#[test]
fn status_result_only_when_complete() {
    assert_eq!(NodeStatus::Complete(Failure).result(), Some(Failure));
    assert_eq!(NodeStatus::Beginning.result(), None);
    assert_eq!(NodeStatus::Pending(NodeState::Task).result(), None);
}

#[test]
fn last_result_of_results() {
    assert_eq!(last_result(vec![Success, Failure]), Failure);
    assert_eq!(last_result(vec![Failure, Success]), Success);
    assert_eq!(last_result(vec![]), Failure);
}

#[test]
fn identity_keeps_declaration_order() {
    assert_eq!(pick_identity(&vec![5, 1, 9]), vec![0, 1, 2]);
    assert_eq!(pick_identity(&vec![]), Vec::<usize>::new());
}

#[test]
fn sorted_is_descending_and_stable() {
    assert_eq!(pick_sorted(&vec![1, 3, 2, 4]), vec![3, 1, 2, 0]);
    assert_eq!(pick_sorted(&vec![2, 5, 2, 5, 1]), vec![1, 3, 0, 2, 4]);
    assert_eq!(pick_sorted(&vec![]), Vec::<usize>::new());
    assert_eq!(pick_sorted(&vec![u64::MAX, 0]), vec![0, 1]);
}

#[test]
fn max_takes_the_first_of_equals() {
    assert_eq!(pick_max(&vec![1, 3, 2, 3]), vec![1]);
    assert_eq!(pick_max(&vec![7]), vec![0]);
    assert_eq!(pick_max(&vec![]), Vec::<usize>::new());
}

#[test]
fn pickers_dispatch() {
    let keys = vec![1, 3, 2, 4];
    assert_eq!(Picker::Identity.pick(&keys), vec![0, 1, 2, 3]);
    assert_eq!(Picker::Sorted.pick(&keys), vec![3, 1, 2, 0]);
    assert_eq!(Picker::RandomSorted.pick(&keys), vec![3, 1, 2, 0]);
    assert_eq!(Picker::Max.pick(&keys), vec![3]);
    assert_eq!(Picker::RandomOne.pick(&keys), vec![3]);
    assert!(Picker::RandomOne.is_weighted());
    assert!(!Picker::Sorted.is_weighted());
}

#[test]
fn uniform_scorers_pair_every_node() {
    let paired = score_uniform(vec![TaskBridge::new(4), TaskBridge::new(7)]);
    assert_eq!(paired.len(), 2);
    assert!(paired.iter().all(|(_, s)| *s == Scorer::Uniform));
}

#[test]
fn constructors_continue_and_conclude() {
    assert!(ResultConstructor::And.should_continue(Success));
    assert!(!ResultConstructor::And.should_continue(Failure));
    assert!(ResultConstructor::Or.should_continue(Failure));
    assert!(!ResultConstructor::Or.should_continue(Success));
    assert!(ResultConstructor::Last.should_continue(Failure));
    assert!(!ResultConstructor::Forced.should_continue(Success));

    let state = ScoredSequenceState::new(vec![2, 0, 1], 3);
    let (state, done) = state.advance(ResultConstructor::Last, Failure);
    assert_eq!(done, None);
    assert_eq!(state.results, vec![None, None, Some(Failure)]);
    let (state, done) = state.advance(ResultConstructor::Last, Success);
    assert_eq!(done, None);
    assert_eq!(state.last_visited(), Some(Success));
    let (state, done) = state.advance(ResultConstructor::Last, Failure);
    assert_eq!(done, Some(Failure));
    assert_eq!(state.count, 3);
    assert_eq!(ResultConstructor::And.construct(&state), Failure);
    assert_eq!(ResultConstructor::Or.construct(&state), Success);

    let fresh = ScoredSequenceState::new(vec![], 2);
    assert_eq!(ResultConstructor::And.construct(&fresh), Success);
    assert_eq!(ResultConstructor::Or.construct(&fresh), Failure);
    assert_eq!(ResultConstructor::Last.construct(&fresh), Success);
    assert_eq!(ResultConstructor::Forced.construct(&fresh), Failure);
}

#[test]
fn sequence_state_steps() {
    let state = ScoredSequenceState::new(vec![1, 0], 2);
    assert_eq!(state.results, vec![None, None]);
    let state = state.update_pending(NodeState::Task);
    assert!(state.child_state.is_some());
    let (state, child) = state.extract_child_state();
    assert!(state.child_state.is_none());
    assert!(matches!(child.as_deref(), Some(NodeState::Task)));
    let state = state.update_result(Success);
    assert_eq!(state.count, 1);
    assert_eq!(state.results, vec![None, Some(Success)]);
    let (state, done) = state.advance(ResultConstructor::And, Failure);
    assert_eq!(done, Some(Failure));
    assert_eq!(state.results, vec![Some(Failure), Some(Success)]);
}

#[test]
fn selector_stops_on_success() {
    let state = ScoredSequenceState::new(vec![0, 1, 2], 3);
    let (state, done) = state.advance(ResultConstructor::Or, Failure);
    assert_eq!(done, None);
    let (state, done) = state.advance(ResultConstructor::Or, Success);
    assert_eq!(done, Some(Success));
    assert_eq!(state.results[2], None);
}

#[test]
fn converter_maps_only_completion() {
    let invert = ResultConverter { on_success: Failure, on_failure: Success };
    assert!(matches!(invert.convert(NodeStatus::Complete(Success)), NodeStatus::Complete(Failure)));
    assert!(matches!(invert.convert(NodeStatus::Complete(Failure)), NodeStatus::Complete(Success)));
    assert!(matches!(invert.convert(NodeStatus::Pending(NodeState::Task)), NodeStatus::Pending(NodeState::Task)));
    let force = ResultConverter { on_success: Failure, on_failure: Failure };
    assert!(matches!(force.convert(NodeStatus::Complete(Success)), NodeStatus::Complete(Failure)));
}

#[test]
fn join_strategies() {
    let running = vec![Some(Success), None, Some(Success)];
    assert_eq!(JoinStrategy::And.join(&running), None);
    assert_eq!(JoinStrategy::Or.join(&running), Some(Success));
    assert_eq!(JoinStrategy::All.join(&running), None);
    let failed = vec![None, Some(Failure)];
    assert_eq!(JoinStrategy::And.join(&failed), Some(Failure));
    assert_eq!(JoinStrategy::Or.join(&failed), None);
    let done = vec![Some(Failure), Some(Failure)];
    assert_eq!(JoinStrategy::Or.join(&done), Some(Failure));
    assert_eq!(JoinStrategy::All.join(&done), Some(Success));
    let succeeded = vec![Some(Success), Some(Success)];
    assert_eq!(JoinStrategy::And.join(&succeeded), Some(Success));
    assert_eq!(JoinStrategy::And.join(&vec![]), Some(Success));
}

#[test]
fn parallel_results_follow_statuses() {
    let state = ParallelState {
        children_status: vec![
            NodeStatus::Complete(Failure),
            NodeStatus::Pending(NodeState::Task),
            NodeStatus::Beginning,
            NodeStatus::Complete(Success),
        ],
    };
    assert_eq!(state.results(), vec![Some(Failure), None, None, Some(Success)]);
}

#[test]
fn loop_state_counts_completions() {
    let state = LoopState::new();
    assert_eq!(state, LoopState { count: 0, last_result: None });
    let state = state.update(Failure);
    assert_eq!(state, LoopState { count: 1, last_result: Some(Failure) });
    let full = LoopState { count: usize::MAX, last_result: None }.update(Success);
    assert_eq!(full.count, usize::MAX);
}

#[test]
fn loop_conditions_decide_without_the_host() {
    let mut host = Recorder::new(Silent);
    let first = LoopState { count: 0, last_result: None };
    let after = LoopState { count: 2, last_result: Some(Failure) };
    assert!(Always.check(after));
    assert!(RepeatCount { count: 3 }.check(after));
    assert!(!RepeatCount { count: 2 }.check(after));
    assert!(UntilResult { until: Success }.check(after));
    assert!(!UntilResult { until: Failure }.check(after));
    assert!(UntilResult { until: Failure }.check(first));
    assert!(!LoopCondChecker::Once(0).check(&mut host, after));
    assert!(LoopCondChecker::RepeatCount(RepeatCount { count: 1 }).check(&mut host, first));
}

#[test]
fn gate_actions() {
    assert_eq!(gate_action(false, true), GateAction::Hold);
    assert_eq!(gate_action(false, false), GateAction::Hold);
    assert_eq!(gate_action(true, false), GateAction::Begin);
    assert_eq!(gate_action(true, true), GateAction::Resume);
}
