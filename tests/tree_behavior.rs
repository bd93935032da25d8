use std::collections::HashSet;

use bevior_tree::conditional::{
    Always, CheckIf, Conditional, ConditionalLoop, ElseFreeze, LoopCondChecker, LoopState,
    RepeatCount,
};
use bevior_tree::converter::{ForceResult, Invert, ResultConverter};
use bevior_tree::journal::Recorder;
use bevior_tree::node::{Host, Node, NodeResult, NodeStateError, NodeStatus};
use bevior_tree::parallel::{Join, ParallelAnd, ParallelOr};
use bevior_tree::sequential::{
    pair_node_scorer_fn, ForcedSequence, RandomForcedSelector, RandomOrderedForcedSequence,
    RandomOrderedSequentialAnd, RandomOrderedSequentialOr, ScoreOrderedForcedSequence,
    ScoreOrderedSequentialAnd, ScoreOrderedSequentialOr, ScoredForcedSelector, Scorer, Selector,
    Sequence,
};
use bevior_tree::task::{QuickReturn, TaskBridge, TaskEvent, TaskStatus};
use bevior_tree::BehaviorTree;
use rand::distr::{Distribution, Uniform};
use rand::rngs::StdRng;
use rand::SeedableRng;

#[derive(Debug, Clone, Copy, PartialEq, Eq, Hash)]
struct TestLogEntry {
    task_id: u32,
    updated_count: u32,
    frame: u32,
}

fn entry(task_id: u32, updated_count: u32, frame: u32) -> TestLogEntry {
    TestLogEntry { task_id, updated_count, frame }
}

/// A task that reports `result` once it has been updated `count` times.
struct TesterTask {
    count: u32,
    result: NodeResult,
}

/// A small simulation: each entered task gets a component whose counter
/// the update step logs and increments every frame, before the tree ticks.
struct TestWorld {
    tasks: Vec<TesterTask>,
    components: Vec<Option<u32>>,
    log: Vec<TestLogEntry>,
    events: Vec<(u64, TaskEvent)>,
    frame: u32,
    conditions: Vec<bool>,
    loop_condition: fn(LoopState) -> bool,
    scores: Vec<f32>,
    rng: StdRng,
}

fn no_loop(_: LoopState) -> bool {
    false
}

impl TestWorld {
    fn new(tasks: Vec<(u32, NodeResult)>) -> TestWorld {
        let n = tasks.len();
        TestWorld {
            tasks: tasks.into_iter().map(|(count, result)| TesterTask { count, result }).collect(),
            components: vec![None; n],
            log: vec![],
            events: vec![],
            frame: 0,
            conditions: vec![],
            loop_condition: no_loop,
            scores: vec![],
            rng: StdRng::seed_from_u64(224),
        }
    }

    fn update(&mut self, tree: &mut BehaviorTree) {
        for id in 0..self.components.len() {
            if let Some(count) = self.components[id].as_mut() {
                self.log.push(entry(id as u32, *count, self.frame));
                *count += 1;
            }
        }
        let mut host = Recorder::new(&mut *self);
        tree.tick(&mut host).expect("the tree's own states always fit");
        self.frame += 1;
    }

    fn count_events(&self, task: u64, event: TaskEvent) -> usize {
        self.events.iter().filter(|e| **e == (task, event)).count()
    }

    fn log_set(&self) -> HashSet<TestLogEntry> {
        self.log.iter().copied().collect()
    }
}

fn key_of(value: f32) -> u64 {
    value.to_bits() as u64
}

impl Host for &mut TestWorld {
    fn check_task(&mut self, task: u64) -> TaskStatus {
        let Some(count) = self.components[task as usize] else {
            panic!("TesterComponent not found!");
        };
        let tester = &self.tasks[task as usize];
        if count < tester.count {
            TaskStatus::Running
        } else {
            TaskStatus::Complete(tester.result)
        }
    }

    fn trigger_event(&mut self, task: u64, event: TaskEvent) {
        self.events.push((task, event));
        match event {
            TaskEvent::Enter => self.components[task as usize] = Some(0),
            TaskEvent::Exit => self.components[task as usize] = None,
            _ => {}
        }
    }

    fn check_condition(&mut self, checker: u64) -> bool {
        self.conditions[checker as usize]
    }

    fn check_loop_condition(&mut self, _checker: u64, state: LoopState) -> bool {
        (self.loop_condition)(state)
    }

    fn score_node(&mut self, scorer: u64) -> u64 {
        key_of(self.scores[scorer as usize])
    }

    fn weighted_key(&mut self, scorer: Scorer) -> u64 {
        let score = match scorer {
            Scorer::Uniform => 1.0,
            Scorer::Host(id) => self.scores[id as usize],
        };
        let dist = Uniform::<f32>::new(0.0, 1.0).expect("Failed to init uniform distribution.");
        key_of(dist.sample(&mut self.rng).powf(1.0 / score))
    }
}

fn task(id: u64) -> Node {
    TaskBridge::new(id)
}

fn result_of(tree: &BehaviorTree) -> Option<NodeResult> {
    tree.status.result()
}

fn scored_tasks(n: u64) -> Vec<(Node, Scorer)> {
    (0..n).map(|id| pair_node_scorer_fn(task(id), id)).collect()
}

const SCORES: [f32; 4] = [0.1, 0.3, 0.2, 0.4];

#[test]
fn test_enter_tester_task() {
    let mut world = TestWorld::new(vec![(1, NodeResult::Success)]);
    let mut tree = BehaviorTree::new(task(0));
    world.update(&mut tree);
    assert!(world.components[0].is_some(), "TesterComponent should added on enter.");
    world.update(&mut tree);
}

#[test]
fn test_exit_tester_task() {
    let mut world = TestWorld::new(vec![(1, NodeResult::Success)]);
    let mut tree = BehaviorTree::new(task(0));
    world.update(&mut tree);
    world.update(&mut tree);
    assert!(world.components[0].is_none(), "TesterComponent should removed on exit.");
}

#[test]
fn test_log_test_task() {
    let mut world = TestWorld::new(vec![(1, NodeResult::Success)]);
    let mut tree = BehaviorTree::new(task(0));
    world.update(&mut tree);
    world.update(&mut tree);
    assert!(world.log == vec![entry(0, 0, 1)], "TesterComponent should removed on exit.");
}

#[test]
fn test_tree_end_with_result() {
    let mut world = TestWorld::new(vec![(1, NodeResult::Success)]);
    let mut tree = BehaviorTree::new(task(0));
    world.update(&mut tree);
    world.update(&mut tree);
    assert!(
        matches!(tree.status, NodeStatus::Complete(_)),
        "BehaviorTree should have result on the end."
    );
    assert!(
        result_of(&tree) == Some(NodeResult::Success),
        "BehaviorTree should have result that match with the result of the root."
    );
}

#[test]
fn test_freeze() {
    let mut world = TestWorld::new(vec![(2, NodeResult::Success)]);
    let mut tree = BehaviorTree::new(task(0));
    world.update(&mut tree);
    tree.freeze = true;
    world.update(&mut tree); // 0
    world.update(&mut tree); // 1
    world.update(&mut tree); // 2
    tree.freeze = false;
    world.update(&mut tree); // 3, task complete
    let expected = vec![entry(0, 0, 1), entry(0, 1, 2), entry(0, 2, 3), entry(0, 3, 4)];
    assert!(world.log == expected, "Task should not proceed while freeze. found: {:?}", world.log);
    assert_eq!(result_of(&tree), Some(NodeResult::Success));
}

#[test]
fn mod_test_repeat_count() {
    let mut world = TestWorld::new(vec![(1, NodeResult::Success)]);
    world.loop_condition = |state: LoopState| state.count < 3;
    let mut tree = BehaviorTree::new(ConditionalLoop::new(task(0), LoopCondChecker::Host(0)));
    world.update(&mut tree);
    world.update(&mut tree); // 0
    world.update(&mut tree); // 1
    world.update(&mut tree); // 2, repeater complete
    let expected = vec![entry(0, 0, 1), entry(0, 0, 2), entry(0, 0, 3)];
    assert!(world.log == expected, "ConditionalLoop should repeat the task. found: {:?}", world.log);
}

#[test]
fn decorator_test_repeat_count() {
    let mut world = TestWorld::new(vec![(1, NodeResult::Success)]);
    let repeater = ConditionalLoop::new(task(0), LoopCondChecker::RepeatCount(RepeatCount { count: 3 }));
    let mut tree = BehaviorTree::new(repeater);
    world.update(&mut tree);
    world.update(&mut tree); // 0
    world.update(&mut tree); // 1
    world.update(&mut tree); // 2, repeater complete
    let expected = vec![entry(0, 0, 1), entry(0, 0, 2), entry(0, 0, 3)];
    assert!(world.log == expected, "ConditionalLoop should repeat the task.");
}

#[test]
fn test_check_if_false() {
    let mut world = TestWorld::new(vec![]);
    world.conditions = vec![false];
    let mut tree = BehaviorTree::new(CheckIf::new(0));
    world.update(&mut tree);
    world.update(&mut tree);
    assert!(
        matches!(tree.status, NodeStatus::Complete(NodeResult::Failure)),
        "CheckIf should match the result."
    );
}

#[test]
fn test_check_if_true() {
    let mut world = TestWorld::new(vec![]);
    world.conditions = vec![true];
    let mut tree = BehaviorTree::new(CheckIf::new(0));
    world.update(&mut tree);
    world.update(&mut tree);
    assert!(
        matches!(tree.status, NodeStatus::Complete(NodeResult::Success)),
        "CheckIf should match the result."
    );
}

#[test]
fn test_conditional_freeze() {
    let mut world = TestWorld::new(vec![(2, NodeResult::Success)]);
    world.conditions = vec![true];
    let mut tree = BehaviorTree::new(ElseFreeze::new(task(0), 0));
    world.update(&mut tree);
    world.update(&mut tree); // 0
    world.conditions[0] = false;
    world.update(&mut tree); // 1
    world.update(&mut tree); // 2
    world.conditions[0] = true;
    world.update(&mut tree); // 3, repeater complete
    let expected = vec![entry(0, 0, 1), entry(0, 1, 2), entry(0, 2, 3), entry(0, 3, 4)];
    assert!(world.log == expected, "ElseFreeze should match the result. found: {:?}", world.log);
}

#[test]
fn test_conditional_false() {
    let mut world = TestWorld::new(vec![(1, NodeResult::Success)]);
    world.conditions = vec![false];
    let mut tree = BehaviorTree::new(Conditional::new(task(0), 0));
    world.update(&mut tree);
    world.update(&mut tree); // nop
    assert!(world.log == vec![], "Conditional should not do the task. Found {:?}", world.log);
}

#[test]
fn test_conditional_true() {
    let mut world = TestWorld::new(vec![(1, NodeResult::Success)]);
    world.conditions = vec![true];
    let mut tree = BehaviorTree::new(Conditional::new(task(0), 0));
    world.update(&mut tree);
    world.update(&mut tree); // 0
    world.update(&mut tree); // nop
    assert!(world.log == vec![entry(0, 0, 1)], "Conditional should do the task. Found {:?}", world.log);
}

#[test]
fn test_invert() {
    let mut world = TestWorld::new(vec![(1, NodeResult::Success)]);
    let mut tree = BehaviorTree::new(Invert::new(task(0)));
    world.update(&mut tree);
    world.update(&mut tree);
    assert!(result_of(&tree) == Some(NodeResult::Failure), "Invert should match the result.");
}

#[test]
fn test_force_result() {
    let mut world = TestWorld::new(vec![(1, NodeResult::Success)]);
    let mut tree = BehaviorTree::new(ForceResult::new(task(0), NodeResult::Failure));
    world.update(&mut tree);
    world.update(&mut tree);
    assert!(result_of(&tree) == Some(NodeResult::Failure), "ForceResult should match the result.");
}

#[test]
fn test_invert_result() {
    let mut world = TestWorld::new(vec![(1, NodeResult::Success)]);
    let inverter = ResultConverter::new(
        task(0),
        ResultConverter { on_success: NodeResult::Failure, on_failure: NodeResult::Success },
    );
    let mut tree = BehaviorTree::new(inverter);
    world.update(&mut tree);
    world.update(&mut tree);
    assert!(result_of(&tree) == Some(NodeResult::Failure), "ResultConverter should change the result.");
}

fn parallel_world(last: NodeResult, third: NodeResult) -> TestWorld {
    TestWorld::new(vec![(1, last), (2, last), (3, third), (4, last)])
}

fn first_three_frames() -> Vec<TestLogEntry> {
    vec![
        entry(0, 0, 1),
        entry(1, 0, 1),
        entry(2, 0, 1),
        entry(3, 0, 1),
        entry(1, 1, 2),
        entry(2, 1, 2),
        entry(3, 1, 2),
        entry(2, 2, 3),
        entry(3, 2, 3),
    ]
}

#[test]
fn test_and() {
    let mut world = parallel_world(NodeResult::Success, NodeResult::Failure);
    let mut tree = BehaviorTree::new(ParallelAnd::new(vec![task(0), task(1), task(2), task(3)]));
    world.update(&mut tree);
    world.update(&mut tree); // 0, 1, 2, 3
    world.update(&mut tree); // 1, 2, 3
    world.update(&mut tree); // 2, 3, completed with Failure
    world.update(&mut tree); // nop
    let expected: HashSet<TestLogEntry> = first_three_frames().into_iter().collect();
    let found = world.log_set();
    assert!(found == expected, "ParallelAnd should match result. found: {:?}", found);
}

#[test]
fn test_or() {
    let mut world = parallel_world(NodeResult::Failure, NodeResult::Success);
    let mut tree = BehaviorTree::new(ParallelOr::new(vec![task(0), task(1), task(2), task(3)]));
    world.update(&mut tree);
    world.update(&mut tree); // 0, 1, 2, 3
    world.update(&mut tree); // 1, 2, 3
    world.update(&mut tree); // 2, 3, complete with Success
    world.update(&mut tree); // nop
    let expected: HashSet<TestLogEntry> = first_three_frames().into_iter().collect();
    let found = world.log_set();
    assert!(found == expected, "ParallelOr should match result. found: {:?}", found);
}

#[test]
fn test_join() {
    let mut world = parallel_world(NodeResult::Success, NodeResult::Failure);
    let mut tree = BehaviorTree::new(Join::new(vec![task(0), task(1), task(2), task(3)]));
    world.update(&mut tree);
    world.update(&mut tree); // 0, 1, 2, 3
    world.update(&mut tree); // 1, 2, 3
    world.update(&mut tree); // 2, 3
    world.update(&mut tree); // 3, parallel completed
    world.update(&mut tree); // nop
    let mut expected = first_three_frames();
    expected.push(entry(3, 3, 4));
    let expected: HashSet<TestLogEntry> = expected.into_iter().collect();
    let found = world.log_set();
    assert!(found == expected, "Join should match result. found: {:?}", found);
}

#[test]
fn parallel_and_force_exits_the_unfinished_child_once() {
    let mut world = parallel_world(NodeResult::Success, NodeResult::Failure);
    let mut tree = BehaviorTree::new(ParallelAnd::new(vec![task(0), task(1), task(2), task(3)]));
    world.update(&mut tree);
    world.update(&mut tree);
    world.update(&mut tree);
    assert!(matches!(tree.status, NodeStatus::Pending(_)));
    world.update(&mut tree);
    assert_eq!(result_of(&tree), Some(NodeResult::Failure));
    assert_eq!(world.frame, 4);
    assert_eq!(world.count_events(3, TaskEvent::Enter), 1);
    assert_eq!(world.count_events(3, TaskEvent::Exit), 1);
    assert_eq!(world.count_events(3, TaskEvent::Success), 0);
    assert_eq!(world.count_events(3, TaskEvent::Failure), 0);
    assert_eq!(world.count_events(2, TaskEvent::Failure), 1);
    assert!(world.components[3].is_none());
}

fn one_tick_world(results: [NodeResult; 4]) -> TestWorld {
    let mut world = TestWorld::new(results.iter().map(|r| (1, *r)).collect());
    world.scores = SCORES.to_vec();
    world
}

#[test]
fn test_sequential_and() {
    let mut world = one_tick_world([
        NodeResult::Success,
        NodeResult::Success,
        NodeResult::Failure,
        NodeResult::Success,
    ]);
    let mut tree = BehaviorTree::new(Sequence::new(vec![task(0), task(1), task(2), task(3)]));
    world.update(&mut tree);
    world.update(&mut tree); // 0
    world.update(&mut tree); // 1
    world.update(&mut tree); // 2, sequence complete with Failure
    world.update(&mut tree); // nop
    let expected = vec![entry(0, 0, 1), entry(1, 0, 2), entry(2, 0, 3)];
    assert!(world.log == expected, "SequentialAnd should match result. found: {:?}", world.log);
    assert_eq!(result_of(&tree), Some(NodeResult::Failure));
    assert_eq!(world.count_events(3, TaskEvent::Enter), 0);
}

#[test]
fn test_sequential_or() {
    let mut world = one_tick_world([
        NodeResult::Failure,
        NodeResult::Failure,
        NodeResult::Success,
        NodeResult::Failure,
    ]);
    let mut tree = BehaviorTree::new(Selector::new(vec![task(0), task(1), task(2), task(3)]));
    world.update(&mut tree);
    world.update(&mut tree); // 0
    world.update(&mut tree); // 1
    world.update(&mut tree); // 2, sequence complete with Success
    world.update(&mut tree); // nop
    let expected = vec![entry(0, 0, 1), entry(1, 0, 2), entry(2, 0, 3)];
    assert!(world.log == expected, "SequentialOr should match result. found: {:?}", world.log);
    assert_eq!(result_of(&tree), Some(NodeResult::Success));
    assert_eq!(world.count_events(3, TaskEvent::Enter), 0);
}

#[test]
fn mod_test_forced_sequence() {
    let mut world = one_tick_world([
        NodeResult::Success,
        NodeResult::Failure,
        NodeResult::Success,
        NodeResult::Failure,
    ]);
    let mut tree = BehaviorTree::new(ForcedSequence::new(vec![task(0), task(1), task(2), task(3)]));
    world.update(&mut tree);
    world.update(&mut tree); // 0
    world.update(&mut tree); // 1
    world.update(&mut tree); // 2,
    world.update(&mut tree); // 3, sequence complete
    let expected = vec![entry(0, 0, 1), entry(1, 0, 2), entry(2, 0, 3), entry(3, 0, 4)];
    assert!(world.log == expected, "ForcedSequence should run all the tasks. found: {:?}", world.log);
    assert_eq!(result_of(&tree), Some(NodeResult::Failure));
}

#[test]
fn test_score_ordered_sequential_and() {
    let mut world = one_tick_world([
        NodeResult::Success,
        NodeResult::Success,
        NodeResult::Failure,
        NodeResult::Success,
    ]);
    let mut tree = BehaviorTree::new(ScoreOrderedSequentialAnd::new(scored_tasks(4)));
    world.update(&mut tree);
    world.update(&mut tree); // 3
    world.update(&mut tree); // 1
    world.update(&mut tree); // 2, sequence complete with Failure
    world.update(&mut tree); // nop
    let expected = vec![entry(3, 0, 1), entry(1, 0, 2), entry(2, 0, 3)];
    assert!(world.log == expected, "Result mismatch. found: {:?}", world.log);
}

#[test]
fn test_score_ordered_sequential_or() {
    let mut world = one_tick_world([
        NodeResult::Failure,
        NodeResult::Failure,
        NodeResult::Success,
        NodeResult::Failure,
    ]);
    let mut tree = BehaviorTree::new(ScoreOrderedSequentialOr::new(scored_tasks(4)));
    world.update(&mut tree);
    world.update(&mut tree); // 3
    world.update(&mut tree); // 1
    world.update(&mut tree); // 2, sequence complete with Success
    world.update(&mut tree); // nop
    let expected = vec![entry(3, 0, 1), entry(1, 0, 2), entry(2, 0, 3)];
    assert!(world.log == expected, "Result mismatch. found: {:?}", world.log);
}

#[test]
fn sorted_test_score_ordered_forced_sequence() {
    let mut world = one_tick_world([
        NodeResult::Failure,
        NodeResult::Failure,
        NodeResult::Success,
        NodeResult::Failure,
    ]);
    let mut tree = BehaviorTree::new(ScoreOrderedForcedSequence::new(scored_tasks(4)));
    world.update(&mut tree);
    world.update(&mut tree); // 3
    world.update(&mut tree); // 1
    world.update(&mut tree); // 2
    world.update(&mut tree); // 0, sequence complete
    world.update(&mut tree); // nop
    let expected = vec![entry(3, 0, 1), entry(1, 0, 2), entry(2, 0, 3), entry(0, 0, 4)];
    assert!(world.log == expected, "Result mismatch. found: {:?}", world.log);
}

#[test]
fn sorted_test_score_ordered_forced_selector() {
    let mut world = one_tick_world([
        NodeResult::Failure,
        NodeResult::Failure,
        NodeResult::Success,
        NodeResult::Failure,
    ]);
    let mut tree = BehaviorTree::new(ScoredForcedSelector::new(scored_tasks(4)));
    world.update(&mut tree);
    world.update(&mut tree); // 3, sequence complete
    world.update(&mut tree); // nop
    let expected = vec![entry(3, 0, 1)];
    assert!(world.log == expected, "Result mismatch. found: {:?}", world.log);
    assert_eq!(result_of(&tree), Some(NodeResult::Failure));
}

#[test]
fn test_random_ordered_sequential_and() {
    let mut world = one_tick_world([
        NodeResult::Success,
        NodeResult::Success,
        NodeResult::Success,
        NodeResult::Failure,
    ]);
    let mut tree = BehaviorTree::new(RandomOrderedSequentialAnd::new(scored_tasks(4)));
    world.update(&mut tree);
    world.update(&mut tree); // 1
    world.update(&mut tree); // 2
    world.update(&mut tree); // 3, sequence complete with Failure
    world.update(&mut tree); // nop
    let expected = vec![entry(1, 0, 1), entry(2, 0, 2), entry(3, 0, 3)];
    assert!(
        world.log == expected,
        "RandomOrderedSequentialAnd should match result. found: {:?}",
        world.log
    );
}

#[test]
fn test_random_ordered_sequential_or() {
    let mut world = one_tick_world([
        NodeResult::Failure,
        NodeResult::Failure,
        NodeResult::Failure,
        NodeResult::Success,
    ]);
    let mut tree = BehaviorTree::new(RandomOrderedSequentialOr::new(scored_tasks(4)));
    world.update(&mut tree);
    world.update(&mut tree); // 1
    world.update(&mut tree); // 2
    world.update(&mut tree); // 3, sequence complete with Success
    world.update(&mut tree); // nop
    let expected = vec![entry(1, 0, 1), entry(2, 0, 2), entry(3, 0, 3)];
    assert!(
        world.log == expected,
        "RandomOrderedSequentialOr should match result. found: {:?}",
        world.log
    );
}

#[test]
fn random_test_random_ordered_forced_sequence() {
    let mut world = one_tick_world([
        NodeResult::Failure,
        NodeResult::Failure,
        NodeResult::Success,
        NodeResult::Failure,
    ]);
    let mut tree = BehaviorTree::new(RandomOrderedForcedSequence::new(scored_tasks(4)));
    world.update(&mut tree);
    world.update(&mut tree); // 1
    world.update(&mut tree); // 2
    world.update(&mut tree); // 3
    world.update(&mut tree); // 0, sequence complete
    world.update(&mut tree); // nop
    let expected = vec![entry(1, 0, 1), entry(2, 0, 2), entry(3, 0, 3), entry(0, 0, 4)];
    assert!(
        world.log == expected,
        "RandomOrderedForcedSequence should match result. found: {:?}",
        world.log
    );
}

#[test]
fn random_test_random_forced_selector() {
    let mut world = one_tick_world([
        NodeResult::Failure,
        NodeResult::Failure,
        NodeResult::Success,
        NodeResult::Failure,
    ]);
    let mut tree = BehaviorTree::new(RandomForcedSelector::new(scored_tasks(4)));
    world.update(&mut tree);
    world.update(&mut tree); // 3, sequence complete
    world.update(&mut tree); // nop
    let expected = vec![entry(1, 0, 1)];
    assert!(world.log == expected, "RandomForcedSelector should match result. found: {:?}", world.log);
}

/// The order in which a weighted random sequence visits four one-tick tasks
/// scored 0.1, 0.3, 0.2, 0.4, with the host's generator seeded by `seed`.
fn weighted_order(seed: u64) -> Vec<u32> {
    let mut world = one_tick_world([NodeResult::Success; 4]);
    world.rng = StdRng::seed_from_u64(seed);
    let mut tree = BehaviorTree::new(RandomOrderedForcedSequence::new(scored_tasks(4)));
    for _ in 0..6 {
        world.update(&mut tree);
    }
    world.log.iter().map(|e| e.task_id).collect()
}

#[test]
fn weighted_random_order_is_reproducible_per_seed() {
    for seed in 0..20 {
        assert_eq!(weighted_order(seed), weighted_order(seed));
        let mut sorted = weighted_order(seed);
        sorted.sort();
        assert_eq!(sorted, vec![0, 1, 2, 3]);
    }
    let orders: HashSet<Vec<u32>> = (0..20).map(weighted_order).collect();
    assert!(orders.len() > 1, "different seeds should give different orders");
}

#[test]
fn conditional_loop_enters_child_k_times() {
    for k in [0usize, 1, 5] {
        let mut world = TestWorld::new(vec![(0, NodeResult::Success)]);
        let looped = ConditionalLoop::new(task(0), LoopCondChecker::RepeatCount(RepeatCount { count: k }));
        let mut tree = BehaviorTree::new(looped);
        for _ in 0..(k + 2) {
            world.update(&mut tree);
        }
        let expected = if k == 0 { NodeResult::Failure } else { NodeResult::Success };
        assert_eq!(result_of(&tree), Some(expected));
        assert_eq!(world.count_events(0, TaskEvent::Enter), k);
        assert_eq!(world.count_events(0, TaskEvent::Exit), k);
    }
}

#[test]
fn infinite_loop_keeps_running() {
    let mut world = TestWorld::new(vec![(0, NodeResult::Failure)]);
    let mut tree = BehaviorTree::new(ConditionalLoop::new(task(0), LoopCondChecker::Always(Always)));
    for _ in 0..5 {
        world.update(&mut tree);
    }
    assert!(matches!(tree.status, NodeStatus::Pending(_)));
    assert_eq!(world.count_events(0, TaskEvent::Enter), 5);
}

#[test]
fn else_freeze_takes_frozen_ticks_plus_child_ticks() {
    let m = 3;
    let mut world = TestWorld::new(vec![(2, NodeResult::Success)]);
    world.conditions = vec![false];
    let mut tree = BehaviorTree::new(ElseFreeze::new(task(0), 0));
    for tick in 1..=10 {
        if tick == m + 1 {
            world.conditions[0] = true;
        }
        world.update(&mut tree);
        if result_of(&tree).is_some() {
            assert_eq!(tick, m + 3);
            break;
        }
    }
    assert_eq!(result_of(&tree), Some(NodeResult::Success));
    assert_eq!(world.count_events(0, TaskEvent::Enter), 1);
}

#[test]
fn abort_force_exits_the_pending_task() {
    let mut world = TestWorld::new(vec![(5, NodeResult::Success), (5, NodeResult::Success)]);
    let mut tree = BehaviorTree::new(Sequence::new(vec![task(0), task(1)]));
    world.update(&mut tree);
    world.update(&mut tree);
    tree.abort = true;
    world.update(&mut tree);
    assert!(matches!(tree.status, NodeStatus::Beginning));
    assert_eq!(world.count_events(0, TaskEvent::Enter), 1);
    assert_eq!(world.count_events(0, TaskEvent::Exit), 1);
    assert_eq!(world.count_events(0, TaskEvent::Success), 0);
    assert_eq!(world.count_events(1, TaskEvent::Enter), 0);
    world.update(&mut tree);
    assert_eq!(world.events.len(), 2);
}

#[test]
fn resume_with_a_foreign_state_is_an_error() {
    let mut world = TestWorld::new(vec![(3, NodeResult::Success)]);
    let looped = ConditionalLoop::new(task(0), LoopCondChecker::Always(Always));
    let mut host = Recorder::new(&mut world);
    let state = match looped.begin(&mut host) {
        Ok(NodeStatus::Pending(state)) => state,
        _ => panic!("the loop should be pending"),
    };
    let other = Sequence::new(vec![task(0)]);
    assert!(matches!(other.resume(&mut host, state), Err(NodeStateError::InvalidTypeOfState)));
    let check = CheckIf::new(0);
    let state = match task(0).begin(&mut host) {
        Ok(NodeStatus::Pending(state)) => state,
        _ => panic!("the task should be pending"),
    };
    assert!(matches!(check.force_exit(&mut host, state), Err(NodeStateError::InvalidTypeOfState)));
}

#[test]
fn empty_composites_complete_at_once() {
    let mut world = TestWorld::new(vec![]);
    let cases = vec![
        (Sequence::new(vec![]), NodeResult::Success),
        (Selector::new(vec![]), NodeResult::Failure),
        (ForcedSequence::new(vec![]), NodeResult::Success),
        (ScoredForcedSelector::new(vec![]), NodeResult::Failure),
        (ParallelAnd::new(vec![]), NodeResult::Success),
        (ParallelOr::new(vec![]), NodeResult::Failure),
        (Join::new(vec![]), NodeResult::Success),
    ];
    for (node, expected) in cases {
        let status = node.begin(&mut Recorder::new(&mut world)).unwrap();
        assert_eq!(status.result(), Some(expected));
    }
}

#[test]
fn task_fires_enter_result_then_exit() {
    let mut world = TestWorld::new(vec![(1, NodeResult::Failure)]);
    let mut tree = BehaviorTree::new(task(0));
    world.update(&mut tree);
    assert_eq!(world.events, vec![(0, TaskEvent::Enter)]);
    world.update(&mut tree);
    assert_eq!(
        world.events,
        vec![(0, TaskEvent::Enter), (0, TaskEvent::Failure), (0, TaskEvent::Exit)]
    );
    assert_eq!(result_of(&tree), Some(NodeResult::Failure));
}

#[test]
fn force_exit_sends_exit_to_every_open_task_in_order() {
    let mut world = TestWorld::new(vec![(5, NodeResult::Success); 3]);
    let root = ParallelAnd::new(vec![task(0), Sequence::new(vec![task(1), task(2)])]);
    let mut host = Recorder::new(&mut world);
    let state = match root.begin(&mut host) {
        Ok(NodeStatus::Pending(state)) => state,
        _ => panic!("the parallel node should be pending"),
    };
    root.force_exit(&mut host, state).unwrap();
    drop(host);
    assert_eq!(
        world.events,
        vec![(0, TaskEvent::Enter), (1, TaskEvent::Enter), (0, TaskEvent::Exit), (1, TaskEvent::Exit)]
    );
}

#[test]
fn quick_return_completes_at_once() {
    let mut world = TestWorld::new(vec![]);
    let mut tree = BehaviorTree::new(QuickReturn::new(NodeResult::Failure));
    world.update(&mut tree);
    assert_eq!(result_of(&tree), Some(NodeResult::Failure));
    assert!(world.events.is_empty());
}

#[test]
fn inverted_sequence_maps_the_sequence_result() {
    let mut world = TestWorld::new(vec![(1, NodeResult::Success), (1, NodeResult::Failure)]);
    let mut tree = BehaviorTree::new(Invert::new(Sequence::new(vec![task(0), task(1)])));
    for _ in 0..4 {
        world.update(&mut tree);
    }
    assert_eq!(result_of(&tree), Some(NodeResult::Success));
}
