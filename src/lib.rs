//! Resumable, tick-driven behavior trees.
//!
//! A tree is an immutable [`node::Node`] definition paired with the
//! [`node::NodeStatus`] of one running instance. Every tick advances the
//! instance by one unit of work; everything the tree needs to know about the
//! simulation around it is asked of a [`node::Host`].
use vstd::prelude::*;

pub mod conditional;
pub mod converter;
pub mod journal;
pub mod node;
pub mod parallel;
pub mod sequential;
pub mod task;

use journal::Recorder;
use node::{begun, exited, extends, fits, resumed, Host, Node, NodeStateError, NodeStatus};

verus! {

/// One tree instance, owned by one agent.
pub struct BehaviorTree {
    pub root: Node,
    pub status: NodeStatus,
    /// While set, the tree is not advanced in either direction.
    pub freeze: bool,
    /// While set, a pending tree is force-exited on its next tick instead of
    /// resumed, and goes back to `Beginning`.
    pub abort: bool,
}

impl BehaviorTree {
    pub fn new(root: Node) -> (r: BehaviorTree)
        ensures
            r.root == root,
            r.status is Beginning,
            !r.freeze,
            !r.abort,
    {
        BehaviorTree { root, status: NodeStatus::Beginning, freeze: false, abort: false }
    }

    /// Advances the tree by one tick: begins it, resumes it, or under
    /// `abort` force-exits it. A frozen or completed tree is left as it is.
    pub fn tick<H: Host>(&mut self, host: &mut Recorder<H>) -> (r: Result<(), NodeStateError>)
        ensures
            final(self).root == old(self).root,
            final(self).freeze == old(self).freeze,
            final(self).abort == old(self).abort,
            extends(old(host).journal(), final(host).journal()),
            old(self).freeze || old(self).status is Complete || (old(self).status is Beginning && old(self).abort)
                ==> (final(self).status == old(self).status && r is Ok && final(host).journal() == old(host).journal()),
            !old(self).freeze && old(self).status is Beginning && !old(self).abort ==> (r is Ok && begun(
                old(self).root,
                old(host).journal(),
                final(host).journal(),
                Ok(final(self).status),
            )),
            !old(self).freeze ==> (old(self).status matches NodeStatus::Pending(s) ==> (if old(self).abort {
                final(self).status is Beginning && exited(old(self).root, s, old(host).journal(), final(host).journal(), r)
            } else {
                resumed(
                    old(self).root,
                    s,
                    old(host).journal(),
                    final(host).journal(),
                    match r {
                        Ok(_) => Ok(final(self).status),
                        Err(e) => Err(e),
                    },
                ) && (fits(old(self).root, s) ==> r is Ok)
            })),
    {
        if self.freeze {
            return Ok(());
        }
        let mut status = NodeStatus::Beginning;
        std::mem::swap(&mut self.status, &mut status);
        match status {
            NodeStatus::Beginning => {
                if self.abort {
                    return Ok(());
                }
                match self.root.begin(host) {
                    Ok(next) => {
                        self.status = next;
                        Ok(())
                    },
                    Err(e) => Err(e),
                }
            },
            NodeStatus::Pending(state) => {
                if self.abort {
                    return self.root.force_exit(host, state);
                }
                match self.root.resume(host, state) {
                    Ok(next) => {
                        self.status = next;
                        Ok(())
                    },
                    Err(e) => Err(e),
                }
            },
            NodeStatus::Complete(result) => {
                self.status = NodeStatus::Complete(result);
                Ok(())
            },
        }
    }
}

} // verus!
