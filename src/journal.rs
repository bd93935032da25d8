//! A host wrapped with a ghost journal of the exchanges a tree has with it.
use vstd::prelude::*;

use crate::conditional::LoopState;
use crate::node::{Host, HostCall};
use crate::sequential::Scorer;
use crate::task::{TaskEvent, TaskStatus};

verus! {

/// A host with a ghost journal of every exchange the tree had with it.
pub struct Recorder<H> {
    host: H,
    calls: Ghost<Seq<HostCall>>,
}

impl<H> Recorder<H> {
    /// Every exchange so far, in order, with the host's answers.
    pub closed spec fn journal(&self) -> Seq<HostCall> {
        self.calls@
    }
}

impl<H: Host> Recorder<H> {
    pub fn new(host: H) -> (r: Recorder<H>)
        ensures
            r.journal() == Seq::<HostCall>::empty(),
    {
        Recorder { host, calls: Ghost(Seq::empty()) }
    }

    /// Gives the host back.
    pub fn into_host(self) -> H {
        self.host
    }

    pub fn check_task(&mut self, task: u64) -> (r: TaskStatus)
        ensures
            final(self).journal() == old(self).journal().push(HostCall::Task(task, r)),
    {
        let r = self.host.check_task(task);
        self.calls = Ghost(self.calls@.push(HostCall::Task(task, r)));
        r
    }

    pub fn trigger_event(&mut self, task: u64, event: TaskEvent)
        ensures
            final(self).journal() == old(self).journal().push(HostCall::Event(task, event)),
    {
        self.host.trigger_event(task, event);
        self.calls = Ghost(self.calls@.push(HostCall::Event(task, event)));
    }

    pub fn check_condition(&mut self, checker: u64) -> (r: bool)
        ensures
            final(self).journal() == old(self).journal().push(HostCall::Condition(checker, r)),
    {
        let r = self.host.check_condition(checker);
        self.calls = Ghost(self.calls@.push(HostCall::Condition(checker, r)));
        r
    }

    pub fn check_loop_condition(&mut self, checker: u64, state: LoopState) -> (r: bool)
        ensures
            final(self).journal() == old(self).journal().push(HostCall::LoopCondition(checker, state, r)),
    {
        let r = self.host.check_loop_condition(checker, state);
        self.calls = Ghost(self.calls@.push(HostCall::LoopCondition(checker, state, r)));
        r
    }

    pub fn score_node(&mut self, scorer: u64) -> (r: u64)
        ensures
            final(self).journal() == old(self).journal().push(HostCall::Score(scorer, r)),
    {
        let r = self.host.score_node(scorer);
        self.calls = Ghost(self.calls@.push(HostCall::Score(scorer, r)));
        r
    }

    pub fn weighted_key(&mut self, scorer: Scorer) -> (r: u64)
        ensures
            final(self).journal() == old(self).journal().push(HostCall::Weighted(scorer, r)),
    {
        let r = self.host.weighted_key(scorer);
        self.calls = Ghost(self.calls@.push(HostCall::Weighted(scorer, r)));
        r
    }
}

} // verus!
