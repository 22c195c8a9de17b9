//! The navigation history: a stack of command-tree snapshots, oldest to
//! newest. The head (most recent entry) is the tree currently shown; a
//! guarded pop refuses to drop the last remaining entry, so a seeded
//! palette can always navigate back to, but never past, its root.

use vstd::prelude::*;

use crate::commands::Command;
use crate::commands::CommandV;
use crate::commands::models_of;
use crate::commands::lemma_models_of;
use crate::commands::clone_commands;

verus! {

broadcast use lemma_models_of;

/// The stack of command-tree snapshots; the last element is the head.
#[derive(Debug)]
pub struct History {
    pub history: Vec<Command>,
}

impl History {
    /// The history models to the sequence of its snapshots' models,
    /// oldest first.
    pub open spec fn model(self) -> Seq<CommandV> {
        models_of(self.history@)
    }

    /// Every snapshot on the stack is well formed.
    pub open spec fn wf(self) -> bool {
        forall|i: int| 0 <= i < self.history@.len() ==> (#[trigger] self.history@[i]).wf()
    }
}

impl Default for History {
    /// A history with no snapshots; it still has to be seeded.
    fn default() -> (r: History)
        ensures
            r.model() == Seq::<CommandV>::empty(),
            r.wf(),
    {
        let r = History { history: Vec::new() };
        proof {
            assert(r.model() =~= Seq::<CommandV>::empty());
        }
        r
    }
}

impl Clone for History {
    fn clone(&self) -> (r: Self)
        ensures
            r.model() == self.model(),
            self.wf() ==> r.wf(),
    {
        History { history: clone_commands(&self.history) }
    }
}

impl History {
    /// Appends a new head snapshot.
    pub fn push(self, cmds: Command) -> (r: History)
        ensures
            r.model() == self.model().push(cmds.model()),
            self.wf() && cmds.wf() ==> r.wf(),
    {
        let mut list = self.history;
        list.push(cmds);
        let r = History { history: list };
        proof {
            assert(r.model() =~= self.model().push(cmds.model()));
        }
        r
    }

    /// Removes the head snapshot unconditionally; on an empty history
    /// this is a no-op.
    pub fn pop(self) -> (r: History)
        ensures
            self.model().len() == 0 ==> r.model() == self.model(),
            self.model().len() > 0 ==> r.model() == self.model().drop_last(),
            self.wf() ==> r.wf(),
    {
        let mut list = self.history;
        let ghost before = list@;
        let popped = list.pop();
        let r = History { history: list };
        proof {
            if before.len() > 0 {
                assert(list@ =~= before.drop_last());
                assert(r.model() =~= self.model().drop_last());
            } else {
                assert(list@ =~= before);
            }
        }
        r
    }

    /// Removes the head snapshot unless it is the only one: a palette can
    /// navigate back to its root but never beyond it.
    pub fn pop_with_minimum(self) -> (r: History)
        ensures
            self.model().len() == 1 ==> r.model() == self.model(),
            self.model().len() != 1 && self.model().len() > 0 ==> r.model()
                == self.model().drop_last(),
            self.model().len() == 0 ==> r.model() == self.model(),
            self.wf() ==> r.wf(),
    {
        if self.history.len() != 1 {
            self.pop()
        } else {
            self
        }
    }

    /// A copy of the head snapshot: the tree currently displayed.
    /// Nothing is returned only when the history was never seeded.
    pub fn head(&self) -> (r: Option<Command>)
        ensures
            match r {
                Some(c) => {
                    &&& self.model().len() > 0
                    &&& c.model() == self.model().last()
                    &&& (self.wf() ==> c.wf())
                },
                None => self.model().len() == 0,
            },
    {
        if self.history.len() > 0 {
            let c = self.history[self.history.len() - 1].clone();
            Some(c)
        } else {
            None
        }
    }

    /// The head snapshot together with the rest of the history, or
    /// nothing when the history is empty.
    pub fn split(self) -> (r: Option<(Command, History)>)
        ensures
            match r {
                Some((c, rest)) => {
                    &&& self.model().len() > 0
                    &&& c.model() == self.model().last()
                    &&& rest.model() == self.model().drop_last()
                    &&& (self.wf() ==> c.wf() && rest.wf())
                },
                None => self.model().len() == 0,
            },
    {
        let mut list = self.history;
        let ghost before = list@;
        match list.pop() {
            Some(c) => {
                let rest = History { history: list };
                proof {
                    assert(list@ =~= before.drop_last());
                    assert(rest.model() =~= self.model().drop_last());
                }
                Some((c, rest))
            },
            None => None,
        }
    }

    /// The number of snapshots on the stack.
    pub fn len(self) -> (r: usize)
        ensures
            r == self.model().len(),
    {
        self.history.len()
    }
}

} // verus!
