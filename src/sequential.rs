//! Composites that run their children one at a time, in a picked order.
use vstd::prelude::*;

use crate::node::{Node, NodeResult, NodeState};

verus! {

/// Where the score of a child comes from.
#[derive(Debug, Clone, Copy, PartialEq, Eq, Structural)]
pub enum Scorer {
    /// Every child scores the same.
    Uniform,
    /// The host scorer with this id.
    Host(u64),
}

/// How the children to visit, and their order, are picked from the scores.
#[derive(Debug, Clone, Copy, PartialEq, Eq, Structural)]
pub enum Picker {
    /// Declaration order.
    Identity,
    /// Descending score, ties in declaration order.
    Sorted,
    /// The single child with the highest score, the first of equals.
    Max,
    /// A score-weighted random permutation: descending weighted random key.
    RandomSorted,
    /// One child, picked at random with probability proportional to its
    /// score: the highest weighted random key.
    RandomOne,
}

/// When a scored sequence goes on after a child completes, and what it
/// completes with.
#[derive(Debug, Clone, Copy, PartialEq, Eq, Structural)]
pub enum ResultConstructor {
    /// Go on while children succeed; fail if any failed, else succeed.
    And,
    /// Go on while children fail; succeed if any succeeded, else fail.
    Or,
    /// Run every picked child; complete with the last result, or `Success`.
    Last,
    /// Run only the first picked child; complete with its result, or `Failure`.
    Forced,
}

/// State of a pending scored sequence.
#[derive(Debug)]
pub struct ScoredSequenceState {
    /// How many picked children completed.
    pub count: usize,
    /// The picked children, in visiting order.
    pub indices: Vec<usize>,
    /// One slot per declared child: its result, if it was visited.
    pub results: Vec<Option<NodeResult>>,
    /// The state of the running child, if it is pending.
    pub child_state: Option<Box<NodeState>>,
}

/// The progress of a scored sequence, without the running child's state.
pub struct SequenceProgress {
    pub count: nat,
    pub indices: Seq<usize>,
    pub results: Seq<Option<NodeResult>>,
}

/// `a` is visited before `b` when ordering by descending score, ties in
/// declaration order.
pub open spec fn ranks_before(scores: Seq<u64>, a: usize, b: usize) -> bool {
    scores[a as int] > scores[b as int] || (scores[a as int] == scores[b as int] && a < b)
}

/// `order` lists distinct children among `n`.
pub open spec fn picks_among(order: Seq<usize>, n: nat) -> bool {
    &&& order.no_duplicates()
    &&& forall|i: int| 0 <= i < order.len() ==> #[trigger] order[i] < n
}

/// `order` is a permutation of the `scores.len()` children, by descending
/// score, ties in declaration order.
pub open spec fn sorted_by_score(scores: Seq<u64>, order: Seq<usize>) -> bool {
    &&& order.len() == scores.len()
    &&& picks_among(order, scores.len())
    &&& forall|i: int, j: int|
        0 <= i < j < order.len() ==> ranks_before(scores, #[trigger] order[i], #[trigger] order[j])
}

/// `m` is the first child with the highest score.
pub open spec fn first_max(scores: Seq<u64>, m: usize) -> bool {
    &&& m < scores.len()
    &&& forall|j: int| 0 <= j < scores.len() ==> #[trigger] scores[j] <= scores[m as int]
    &&& forall|j: int| 0 <= j < m ==> #[trigger] scores[j] < scores[m as int]
}

/// The children in declaration order.
pub open spec fn identity_order(n: nat) -> Seq<usize> {
    Seq::new(n, |i: int| i as usize)
}

/// Declaration order: `0..scores.len()`.
pub fn pick_identity(scores: &Vec<u64>) -> (r: Vec<usize>)
    ensures
        r@ == identity_order(scores.len() as nat),
{
    let mut r: Vec<usize> = Vec::new();
    let mut i: usize = 0;
    while i < scores.len()
        invariant
            i <= scores.len(),
            r@ == identity_order(i as nat),
        decreases scores.len() - i,
    {
        r.push(i);
        i = i + 1;
        assert(r@ =~= identity_order(i as nat));
    }
    r
}

/// Children sorted by descending score; equal scores keep declaration order.
pub fn pick_sorted(scores: &Vec<u64>) -> (r: Vec<usize>)
    ensures
        sorted_by_score(scores@, r@),
{
    let n = scores.len();
    let mut r: Vec<usize> = Vec::new();
    let mut i: usize = 0;
    while i < n
        invariant
            n == scores.len(),
            i <= n,
            r@.len() == i,
            r@.no_duplicates(),
            forall|k: int| 0 <= k < r@.len() ==> #[trigger] r@[k] < i,
            forall|a: int, b: int|
                0 <= a < b < r@.len() ==> ranks_before(scores@, #[trigger] r@[a], #[trigger] r@[b]),
        decreases n - i,
    {
        let mut p: usize = 0;
        while p < r.len() && scores[r[p]] >= scores[i]
            invariant
                n == scores.len(),
                i < n,
                p <= r@.len(),
                forall|k: int| 0 <= k < r@.len() ==> #[trigger] r@[k] < i,
                forall|k: int| 0 <= k < p ==> scores@[#[trigger] r@[k] as int] >= scores@[i as int],
            decreases r.len() - p,
        {
            p = p + 1;
        }
        let ghost old_r = r@;
        r.insert(p, i);
        proof {
            assert(r@ == old_r.insert(p as int, i));
            assert forall|k: int| 0 <= k < r@.len() implies #[trigger] r@[k] < i + 1 by {
                if k < p {
                    assert(r@[k] == old_r[k]);
                } else if k > p {
                    assert(r@[k] == old_r[k - 1]);
                }
            }
            assert forall|a: int, b: int|
                0 <= a < b < r@.len() implies ranks_before(scores@, #[trigger] r@[a], #[trigger] r@[b]) by {
                if b < p {
                    assert(r@[a] == old_r[a] && r@[b] == old_r[b]);
                } else if b == p {
                    assert(r@[a] == old_r[a]);
                } else if a == p {
                    assert(r@[b] == old_r[b - 1]);
                    assert(scores@[old_r[p as int] as int] < scores@[i as int]);
                    if b - 1 > p {
                        assert(ranks_before(scores@, old_r[p as int], old_r[b - 1]));
                    }
                } else if a < p {
                    assert(r@[a] == old_r[a] && r@[b] == old_r[b - 1]);
                } else {
                    assert(r@[a] == old_r[a - 1] && r@[b] == old_r[b - 1]);
                }
            }
            assert forall|a: int, b: int| 0 <= a < r@.len() && 0 <= b < r@.len() && a != b implies r@[a] != r@[b] by {
                if a != p && b != p {
                    let oa = if a < p { a } else { a - 1 };
                    let ob = if b < p { b } else { b - 1 };
                    assert(r@[a] == old_r[oa] && r@[b] == old_r[ob]);
                } else if a == p {
                    let ob = if b < p { b } else { b - 1 };
                    assert(r@[b] == old_r[ob]);
                } else {
                    let oa = if a < p { a } else { a - 1 };
                    assert(r@[a] == old_r[oa]);
                }
            }
        }
        i = i + 1;
    }
    r
}

/// The first child with the highest score; none if there are no children.
pub fn pick_max(scores: &Vec<u64>) -> (r: Vec<usize>)
    ensures
        scores.len() == 0 ==> r@.len() == 0,
        scores.len() > 0 ==> r@.len() == 1 && first_max(scores@, r@[0]),
{
    if scores.len() == 0 {
        return Vec::new();
    }
    let mut m: usize = 0;
    let mut j: usize = 1;
    while j < scores.len()
        invariant
            0 < j <= scores.len(),
            first_max(scores@.subrange(0, j as int), m),
        decreases scores.len() - j,
    {
        if scores[j] > scores[m] {
            m = j;
        }
        j = j + 1;
        assert forall|k: int| 0 <= k < j implies #[trigger] scores@.subrange(0, j as int)[k] == scores@[k] by {}
        assert(scores@.subrange(0, j as int)[m as int] == scores@[m as int]);
    }
    assert(scores@.subrange(0, j as int) =~= scores@);
    let mut r: Vec<usize> = Vec::new();
    r.push(m);
    r
}

/// The last result, or `Failure` if there is none.
pub fn last_result(results: Vec<NodeResult>) -> (r: NodeResult)
    ensures
        r == (if results@.len() == 0 { NodeResult::Failure } else { results@.last() }),
{
    if results.len() == 0 {
        NodeResult::Failure
    } else {
        results[results.len() - 1]
    }
}

/// Pairs each node with a scorer that scores every child the same.
pub fn score_uniform(nodes: Vec<Node>) -> (r: Vec<(Node, Scorer)>)
    ensures
        r@.len() == nodes@.len(),
        forall|i: int| 0 <= i < nodes@.len() ==> #[trigger] r@[i] == (nodes@[i], Scorer::Uniform),
{
    pair_all(nodes, Scorer::Uniform)
}

/// Pairs a node with the host scorer `scorer`.
pub fn pair_node_scorer_fn(node: Node, scorer: u64) -> (r: (Node, Scorer))
    ensures
        r == (node, Scorer::Host(scorer)),
{
    (node, Scorer::Host(scorer))
}

/// Pairs each node with `scorer`.
fn pair_all(nodes: Vec<Node>, scorer: Scorer) -> (r: Vec<(Node, Scorer)>)
    ensures
        r@.len() == nodes@.len(),
        forall|i: int| 0 <= i < nodes@.len() ==> #[trigger] r@[i] == (nodes@[i], scorer),
{
    let ghost before = nodes@;
    let n = nodes.len();
    let mut rest = nodes;
    let mut r: Vec<(Node, Scorer)> = Vec::new();
    let mut i: usize = 0;
    while i < n
        invariant
            n == before.len(),
            i <= n,
            rest@ == before.subrange(i as int, n as int),
            r@.len() == i,
            forall|k: int| 0 <= k < i ==> #[trigger] r@[k] == (before[k], scorer),
        decreases n - i,
    {
        assert(rest@[0] == before[i as int]);
        let node = rest.remove(0);
        assert(rest@ =~= before.subrange(i + 1, n as int));
        r.push((node, scorer));
        i = i + 1;
    }
    r
}

impl Picker {
    /// Whether the keys are weighted random draws rather than scores.
    pub open spec fn spec_is_weighted(self) -> bool {
        self == Picker::RandomSorted || self == Picker::RandomOne
    }

    pub fn is_weighted(&self) -> (r: bool)
        ensures
            r == self.spec_is_weighted(),
    {
        match self {
            Picker::RandomSorted | Picker::RandomOne => true,
            _ => false,
        }
    }

    /// What `pick` returns for `keys`.
    pub open spec fn picks(self, keys: Seq<u64>, order: Seq<usize>) -> bool {
        match self {
            Picker::Identity => order == identity_order(keys.len()),
            Picker::Sorted | Picker::RandomSorted => sorted_by_score(keys, order),
            Picker::Max | Picker::RandomOne => if keys.len() == 0 {
                order.len() == 0
            } else {
                order.len() == 1 && first_max(keys, order[0])
            },
        }
    }

    /// The children to visit, in order, given one key per child.
    pub fn pick(&self, keys: &Vec<u64>) -> (r: Vec<usize>)
        ensures
            self.picks(keys@, r@),
            picks_among(r@, keys.len() as nat),
    {
        match self {
            Picker::Identity => {
                let r = pick_identity(keys);
                assert forall|a: int, b: int| 0 <= a < r@.len() && 0 <= b < r@.len() && a != b
                    implies r@[a] != r@[b] by {}
                r
            },
            Picker::Sorted | Picker::RandomSorted => pick_sorted(keys),
            Picker::Max | Picker::RandomOne => pick_max(keys),
        }
    }
}

impl ResultConstructor {
    /// Whether the sequence goes on after a child completed with `r`.
    pub open spec fn continues(self, r: NodeResult) -> bool {
        match self {
            ResultConstructor::And => r == NodeResult::Success,
            ResultConstructor::Or => r == NodeResult::Failure,
            ResultConstructor::Last => true,
            ResultConstructor::Forced => false,
        }
    }

    /// The result of the sequence, from one slot per declared child and the
    /// result of the last visited child.
    pub open spec fn constructs(
        self,
        results: Seq<Option<NodeResult>>,
        last: Option<NodeResult>,
    ) -> NodeResult {
        match self {
            ResultConstructor::And => if results.contains(Some(NodeResult::Failure)) {
                NodeResult::Failure
            } else {
                NodeResult::Success
            },
            ResultConstructor::Or => if results.contains(Some(NodeResult::Success)) {
                NodeResult::Success
            } else {
                NodeResult::Failure
            },
            ResultConstructor::Last => match last {
                Some(r) => r,
                None => NodeResult::Success,
            },
            ResultConstructor::Forced => match last {
                Some(r) => r,
                None => NodeResult::Failure,
            },
        }
    }

    pub fn should_continue(&self, r: NodeResult) -> (b: bool)
        ensures
            b == self.continues(r),
    {
        match self {
            ResultConstructor::And => r == NodeResult::Success,
            ResultConstructor::Or => r == NodeResult::Failure,
            ResultConstructor::Last => true,
            ResultConstructor::Forced => false,
        }
    }

    pub fn construct(&self, state: &ScoredSequenceState) -> (r: NodeResult)
        ensures
            r == self.constructs(state@.results, state@.last()),
    {
        match self {
            ResultConstructor::And => if contains_result(&state.results, NodeResult::Failure) {
                NodeResult::Failure
            } else {
                NodeResult::Success
            },
            ResultConstructor::Or => if contains_result(&state.results, NodeResult::Success) {
                NodeResult::Success
            } else {
                NodeResult::Failure
            },
            ResultConstructor::Last => match state.last_visited() {
                Some(r) => r,
                None => NodeResult::Success,
            },
            ResultConstructor::Forced => match state.last_visited() {
                Some(r) => r,
                None => NodeResult::Failure,
            },
        }
    }
}

/// Whether some slot holds `target`.
fn contains_result(results: &Vec<Option<NodeResult>>, target: NodeResult) -> (b: bool)
    ensures
        b == results@.contains(Some(target)),
{
    let mut i: usize = 0;
    while i < results.len()
        invariant
            i <= results.len(),
            forall|k: int| 0 <= k < i ==> results@[k] != Some(target),
        decreases results.len() - i,
    {
        match results[i] {
            Some(r) => {
                if r == target {
                    assert(results@[i as int] == Some(target));
                    return true;
                }
            },
            None => {},
        }
        i = i + 1;
    }
    false
}

impl SequenceProgress {
    /// Nothing visited yet among `n` declared children.
    pub open spec fn start(indices: Seq<usize>, n: nat) -> SequenceProgress {
        SequenceProgress { count: 0, indices, results: Seq::new(n, |i: int| None) }
    }

    /// The indices are distinct children, with a slot each.
    pub open spec fn wf(self) -> bool {
        &&& picks_among(self.indices, self.results.len())
        &&& self.count <= self.indices.len()
    }

    /// The result of the last visited child.
    pub open spec fn last(self) -> Option<NodeResult> {
        if self.count == 0 || self.count > self.indices.len()
            || self.indices[self.count - 1] >= self.results.len() {
            None
        } else {
            self.results[self.indices[self.count - 1] as int]
        }
    }

    /// The child being visited completed with `r`.
    pub open spec fn record(self, r: NodeResult) -> SequenceProgress {
        SequenceProgress {
            count: self.count + 1,
            indices: self.indices,
            results: self.results.update(self.indices[self.count as int] as int, Some(r)),
        }
    }

    /// The child being visited completed with `r`: the progress after it,
    /// and the sequence's result if it completes there. With nothing left to
    /// visit the sequence is complete already and `r` changes nothing.
    pub open spec fn step(self, c: ResultConstructor, r: NodeResult) -> (
        SequenceProgress,
        Option<NodeResult>,
    ) {
        let next = self.record(r);
        if self.count >= self.indices.len() {
            (self, Some(c.constructs(self.results, self.last())))
        } else if !c.continues(r) || next.count >= next.indices.len() {
            (next, Some(c.constructs(next.results, next.last())))
        } else {
            (next, None)
        }
    }

    /// The visited children complete with `outcomes` one after another:
    /// the progress when the sequence stops or the outcomes run out, and its
    /// result if it stopped.
    pub open spec fn run(self, c: ResultConstructor, outcomes: Seq<NodeResult>) -> (
        SequenceProgress,
        Option<NodeResult>,
    )
        decreases outcomes.len(),
    {
        if outcomes.len() == 0 {
            (self, None)
        } else {
            let (next, done) = self.step(c, outcomes[0]);
            if done is Some {
                (next, done)
            } else {
                next.run(c, outcomes.drop_first())
            }
        }
    }
}

impl View for ScoredSequenceState {
    type V = SequenceProgress;

    open spec fn view(&self) -> SequenceProgress {
        SequenceProgress { count: self.count as nat, indices: self.indices@, results: self.results@ }
    }
}

impl ScoredSequenceState {
    /// Nothing visited yet among `n` declared children.
    pub fn new(indices: Vec<usize>, n: usize) -> (r: ScoredSequenceState)
        ensures
            r@ == SequenceProgress::start(indices@, n as nat),
            r.child_state is None,
    {
        let mut results: Vec<Option<NodeResult>> = Vec::new();
        let mut i: usize = 0;
        while i < n
            invariant
                i <= n,
                results@ == Seq::new(i as nat, |k: int| None::<NodeResult>),
            decreases n - i,
        {
            results.push(None);
            i = i + 1;
            assert(results@ =~= Seq::new(i as nat, |k: int| None::<NodeResult>));
        }
        ScoredSequenceState { count: 0, indices, results, child_state: None }
    }

    /// The running child is pending with `child_state`.
    pub fn update_pending(self, child_state: NodeState) -> (r: ScoredSequenceState)
        ensures
            r@ == self@,
            r.child_state == Some(Box::new(child_state)),
    {
        ScoredSequenceState {
            count: self.count,
            indices: self.indices,
            results: self.results,
            child_state: Some(Box::new(child_state)),
        }
    }

    /// The running child completed with `result`.
    pub fn update_result(self, result: NodeResult) -> (r: ScoredSequenceState)
        requires
            self.count < self.indices.len(),
            self.indices[self.count as int] < self.results.len(),
        ensures
            r@ == self@.record(result),
            r.child_state is None,
    {
        let mut results = self.results;
        let index = self.indices[self.count];
        results.set(index, Some(result));
        ScoredSequenceState {
            count: self.count + 1,
            indices: self.indices,
            results,
            child_state: None,
        }
    }

    /// Takes out the running child's state.
    pub fn extract_child_state(self) -> (r: (ScoredSequenceState, Option<Box<NodeState>>))
        ensures
            r.0@ == self@,
            r.0.child_state is None,
            r.1 == self.child_state,
    {
        (
            ScoredSequenceState {
                count: self.count,
                indices: self.indices,
                results: self.results,
                child_state: None,
            },
            self.child_state,
        )
    }

    /// The result of the last visited child.
    pub fn last_visited(&self) -> (r: Option<NodeResult>)
        ensures
            r == self@.last(),
    {
        if self.count == 0 || self.count > self.indices.len() {
            return None;
        }
        let index = self.indices[self.count - 1];
        if index >= self.results.len() {
            None
        } else {
            self.results[index]
        }
    }

    /// The running child completed with `result`: records it, and decides
    /// whether the sequence completes, with which result.
    pub fn advance(self, c: ResultConstructor, result: NodeResult) -> (r: (
        ScoredSequenceState,
        Option<NodeResult>,
    ))
        requires
            self.count < self.indices.len(),
            self.indices[self.count as int] < self.results.len(),
        ensures
            (r.0@, r.1) == self@.step(c, result),
            r.0.child_state is None,
    {
        let next = self.update_result(result);
        if !c.should_continue(result) || next.count >= next.indices.len() {
            let done = c.construct(&next);
            (next, Some(done))
        } else {
            (next, None)
        }
    }
}

/// A run that has not stopped went on after every outcome, one visit each,
/// all within the picked children.
pub proof fn lemma_run_open(p: SequenceProgress, c: ResultConstructor, outcomes: Seq<NodeResult>)
    requires
        p.wf(),
        p.run(c, outcomes).1 is None,
    ensures
        forall|j: int| 0 <= j < outcomes.len() ==> c.continues(#[trigger] outcomes[j]),
        p.run(c, outcomes).0.count == p.count + outcomes.len(),
        p.run(c, outcomes).0.indices == p.indices,
        p.run(c, outcomes).0.results.len() == p.results.len(),
        p.run(c, outcomes).0.wf(),
        outcomes.len() > 0 ==> p.count + outcomes.len() <= p.indices.len(),
    decreases outcomes.len(),
{
    if outcomes.len() > 0 {
        let (next, done) = p.step(c, outcomes[0]);
        let rest = outcomes.drop_first();
        lemma_run_open(next, c, rest);
        assert forall|j: int| 0 <= j < outcomes.len() implies c.continues(#[trigger] outcomes[j]) by {
            if j > 0 {
                assert(outcomes[j] == rest[j - 1]);
            }
        }
    }
}

/// Running on one more outcome takes one more step from where the run was.
pub proof fn lemma_run_extend(
    p: SequenceProgress,
    c: ResultConstructor,
    outcomes: Seq<NodeResult>,
    r: NodeResult,
)
    requires
        p.run(c, outcomes).1 is None,
    ensures
        p.run(c, outcomes.push(r)) == p.run(c, outcomes).0.step(c, r),
    decreases outcomes.len(),
{
    let longer = outcomes.push(r);
    if outcomes.len() > 0 {
        let (next, done) = p.step(c, outcomes[0]);
        assert(done is None);
        assert(longer[0] == outcomes[0]);
        assert(longer.drop_first() =~= outcomes.drop_first().push(r));
        lemma_run_extend(next, c, outcomes.drop_first(), r);
        assert(p.run(c, longer) == next.run(c, longer.drop_first()));
        assert(p.run(c, outcomes) == next.run(c, outcomes.drop_first()));
    } else {
        assert(longer[0] == r);
        assert(longer.drop_first() =~= Seq::<NodeResult>::empty());
        let (next, done) = p.step(c, r);
        assert(next.run(c, Seq::<NodeResult>::empty()) == (next, None::<NodeResult>));
        assert(p.run(c, outcomes) == (p, None::<NodeResult>));
    }
}

/// Visiting goes on through positions `p.count..k` and stops at position
/// `k`, where the constructor first declines to go on.
proof fn lemma_run_stops_at(
    p: SequenceProgress,
    c: ResultConstructor,
    outcomes: Seq<NodeResult>,
    k: nat,
)
    requires
        p.wf(),
        p.count <= k < p.indices.len(),
        k - p.count < outcomes.len(),
        forall|i: int| 0 <= i < k - p.count ==> c.continues(#[trigger] outcomes[i]),
        !c.continues(outcomes[k - p.count]),
        forall|j: int|
            p.count <= j < p.indices.len() ==> (#[trigger] p.results[p.indices[j] as int]) is None,
    ensures
        ({
            let (end, result) = p.run(c, outcomes);
            &&& end.count == k + 1
            &&& end.indices == p.indices
            &&& end.results.len() == p.results.len()
            &&& result == Some(c.constructs(end.results, end.last()))
            &&& end.results[p.indices[k as int] as int] == Some(outcomes[k - p.count])
            &&& forall|j: int|
                k < j < p.indices.len() ==> (#[trigger] end.results[p.indices[j] as int]) is None
        }),
    decreases k - p.count,
{
    let next = p.record(outcomes[0]);
    assert forall|j: int| p.count < j < p.indices.len() implies (#[trigger] next.results[
        p.indices[j] as int
    ]) is None by {
        assert(p.indices[j] != p.indices[p.count as int]);
    }
    if p.count < k {
        assert(c.continues(outcomes[0]));
        let rest = outcomes.drop_first();
        assert forall|i: int| 0 <= i < k - next.count implies c.continues(#[trigger] rest[i]) by {
            assert(rest[i] == outcomes[i + 1]);
        }
        assert(rest[k - next.count] == outcomes[k - p.count]);
        lemma_run_stops_at(next, c, rest, k);
    }
}

/// In the model of a sequence (`And`), [`SequenceProgress::run`], visiting
/// stops at the first failing child: if the children at positions `0..k` of
/// the picked order succeed and the child at position `k` fails, the run
/// stops with `Failure` at that step, having visited exactly `k + 1`
/// children, and leaves the slots of every later child empty. `begin` and
/// `resume` of a scored node apply this run to the results its visited
/// children returned (see `scored_ran`), so a sequence never visits a child
/// after the first one that failed.
pub proof fn sequence_stops_at_first_failure(
    indices: Seq<usize>,
    n: nat,
    outcomes: Seq<NodeResult>,
    k: nat,
)
    requires
        picks_among(indices, n),
        k < indices.len(),
        k < outcomes.len(),
        forall|i: int| 0 <= i < k ==> outcomes[i] == NodeResult::Success,
        outcomes[k as int] == NodeResult::Failure,
    ensures
        ({
            let (end, result) = SequenceProgress::start(indices, n).run(
                ResultConstructor::And,
                outcomes,
            );
            &&& result == Some(NodeResult::Failure)
            &&& end.count == k + 1
            &&& forall|j: int| k < j < indices.len() ==> (#[trigger] end.results[indices[j] as int]) is None
        }),
{
    let p = SequenceProgress::start(indices, n);
    let c = ResultConstructor::And;
    assert forall|i: int| 0 <= i < k - p.count implies c.continues(#[trigger] outcomes[i]) by {}
    lemma_run_stops_at(p, c, outcomes, k);
    let (end, result) = p.run(c, outcomes);
    assert(end.results[indices[k as int] as int] == Some(NodeResult::Failure));
    assert(end.results.contains(Some(NodeResult::Failure)));
}

/// In the model of a selector (`Or`), [`SequenceProgress::run`], visiting
/// stops at the first succeeding child: if the children at positions `0..k`
/// of the picked order fail and the child at position `k` succeeds, the run
/// stops with `Success` at that step, having visited exactly `k + 1`
/// children, and leaves the slots of every later child empty. `begin` and
/// `resume` of a scored node apply this run to the results its visited
/// children returned (see `scored_ran`), so a selector never visits a child
/// after the first one that succeeded.
pub proof fn selector_stops_at_first_success(
    indices: Seq<usize>,
    n: nat,
    outcomes: Seq<NodeResult>,
    k: nat,
)
    requires
        picks_among(indices, n),
        k < indices.len(),
        k < outcomes.len(),
        forall|i: int| 0 <= i < k ==> outcomes[i] == NodeResult::Failure,
        outcomes[k as int] == NodeResult::Success,
    ensures
        ({
            let (end, result) = SequenceProgress::start(indices, n).run(
                ResultConstructor::Or,
                outcomes,
            );
            &&& result == Some(NodeResult::Success)
            &&& end.count == k + 1
            &&& forall|j: int| k < j < indices.len() ==> (#[trigger] end.results[indices[j] as int]) is None
        }),
{
    let p = SequenceProgress::start(indices, n);
    let c = ResultConstructor::Or;
    assert forall|i: int| 0 <= i < k - p.count implies c.continues(#[trigger] outcomes[i]) by {}
    lemma_run_stops_at(p, c, outcomes, k);
    let (end, result) = p.run(c, outcomes);
    assert(end.results[indices[k as int] as int] == Some(NodeResult::Success));
    assert(end.results.contains(Some(NodeResult::Success)));
}

/// Composite that scores, orders, then runs its children one at a time.
pub struct ScoredSequence;

impl ScoredSequence {
    pub fn new(nodes: Vec<(Node, Scorer)>, picker: Picker, result_constructor: ResultConstructor) -> (r: Node)
        ensures
            r == (Node::Scored { nodes, picker, constructor: result_constructor }),
    {
        Node::Scored { nodes, picker, constructor: result_constructor }
    }
}

/// Runs children in order while they succeed.
pub struct SequentialAnd;

pub type Sequence = SequentialAnd;

impl SequentialAnd {
    pub fn new(nodes: Vec<Node>) -> (r: Node)
        ensures
            r matches Node::Scored { nodes: paired, picker, constructor } && picker == Picker::Identity
                && constructor == ResultConstructor::And && paired@.len() == nodes@.len()
                && forall|i: int| 0 <= i < nodes@.len() ==> #[trigger] paired@[i] == (nodes@[i], Scorer::Uniform),
    {
        ScoredSequence::new(score_uniform(nodes), Picker::Identity, ResultConstructor::And)
    }
}

/// Runs children in order until one succeeds.
pub struct SequentialOr;

pub type Selector = SequentialOr;

impl SequentialOr {
    pub fn new(nodes: Vec<Node>) -> (r: Node)
        ensures
            r matches Node::Scored { nodes: paired, picker, constructor } && picker == Picker::Identity
                && constructor == ResultConstructor::Or && paired@.len() == nodes@.len()
                && forall|i: int| 0 <= i < nodes@.len() ==> #[trigger] paired@[i] == (nodes@[i], Scorer::Uniform),
    {
        ScoredSequence::new(score_uniform(nodes), Picker::Identity, ResultConstructor::Or)
    }
}

/// Runs all children in order.
pub struct ForcedSequence;

impl ForcedSequence {
    pub fn new(nodes: Vec<Node>) -> (r: Node)
        ensures
            r matches Node::Scored { nodes: paired, picker, constructor } && picker == Picker::Identity
                && constructor == ResultConstructor::Last && paired@.len() == nodes@.len()
                && forall|i: int| 0 <= i < nodes@.len() ==> #[trigger] paired@[i] == (nodes@[i], Scorer::Uniform),
    {
        ScoredSequence::new(score_uniform(nodes), Picker::Identity, ResultConstructor::Last)
    }
}

/// Runs children by descending score while they succeed.
pub struct ScoreOrderedSequentialAnd;

impl ScoreOrderedSequentialAnd {
    pub fn new(nodes: Vec<(Node, Scorer)>) -> (r: Node)
        ensures
            r == (Node::Scored { nodes, picker: Picker::Sorted, constructor: ResultConstructor::And }),
    {
        ScoredSequence::new(nodes, Picker::Sorted, ResultConstructor::And)
    }
}

/// Runs children by descending score until one succeeds.
pub struct ScoreOrderedSequentialOr;

impl ScoreOrderedSequentialOr {
    pub fn new(nodes: Vec<(Node, Scorer)>) -> (r: Node)
        ensures
            r == (Node::Scored { nodes, picker: Picker::Sorted, constructor: ResultConstructor::Or }),
    {
        ScoredSequence::new(nodes, Picker::Sorted, ResultConstructor::Or)
    }
}

/// Runs all children by descending score.
pub struct ScoreOrderedForcedSequence;

impl ScoreOrderedForcedSequence {
    pub fn new(nodes: Vec<(Node, Scorer)>) -> (r: Node)
        ensures
            r == (Node::Scored { nodes, picker: Picker::Sorted, constructor: ResultConstructor::Last }),
    {
        ScoredSequence::new(nodes, Picker::Sorted, ResultConstructor::Last)
    }
}

/// Runs only the child with the highest score.
pub struct ScoredForcedSelector;

impl ScoredForcedSelector {
    pub fn new(nodes: Vec<(Node, Scorer)>) -> (r: Node)
        ensures
            r == (Node::Scored { nodes, picker: Picker::Max, constructor: ResultConstructor::Forced }),
    {
        ScoredSequence::new(nodes, Picker::Max, ResultConstructor::Forced)
    }
}

/// Runs children in a score-weighted random order while they succeed.
pub struct RandomOrderedSequentialAnd;

impl RandomOrderedSequentialAnd {
    pub fn new(nodes: Vec<(Node, Scorer)>) -> (r: Node)
        ensures
            r == (Node::Scored { nodes, picker: Picker::RandomSorted, constructor: ResultConstructor::And }),
    {
        ScoredSequence::new(nodes, Picker::RandomSorted, ResultConstructor::And)
    }
}

/// Runs children in a score-weighted random order until one succeeds.
pub struct RandomOrderedSequentialOr;

impl RandomOrderedSequentialOr {
    pub fn new(nodes: Vec<(Node, Scorer)>) -> (r: Node)
        ensures
            r == (Node::Scored { nodes, picker: Picker::RandomSorted, constructor: ResultConstructor::Or }),
    {
        ScoredSequence::new(nodes, Picker::RandomSorted, ResultConstructor::Or)
    }
}

/// Runs all children in a score-weighted random order.
pub struct RandomOrderedForcedSequence;

impl RandomOrderedForcedSequence {
    pub fn new(nodes: Vec<(Node, Scorer)>) -> (r: Node)
        ensures
            r == (Node::Scored { nodes, picker: Picker::RandomSorted, constructor: ResultConstructor::Last }),
    {
        ScoredSequence::new(nodes, Picker::RandomSorted, ResultConstructor::Last)
    }
}

/// Runs one child, picked at random with probability proportional to its score.
pub struct RandomForcedSelector;

impl RandomForcedSelector {
    pub fn new(nodes: Vec<(Node, Scorer)>) -> (r: Node)
        ensures
            r == (Node::Scored { nodes, picker: Picker::RandomOne, constructor: ResultConstructor::Forced }),
    {
        ScoredSequence::new(nodes, Picker::RandomOne, ResultConstructor::Forced)
    }
}

} // verus!
