//! The command tree: a recursive node with a display value, an execution
//! kind, an action policy, and an ordered collection of children.
//!
//! Children live in an arena (`Items::items`); a child's identifier is its
//! index in that arena. A separate sequence (`Items::order`) of identifiers
//! gives the display and navigation order, so a filtered view can reorder
//! or narrow the children without touching the arena itself.
//!
//! Every type has a mathematical model (`CommandV`) over which all
//! contracts are stated: a node models to its character sequences, its
//! kind, its action, the models of its arena, and its order sequence.

use vstd::prelude::*;

verus! {

/// Height of a rendered row before spacing, in logical pixels.
pub const SIMPLE_CMD_HEIGHT: u64 = 28;

/// Payload of a shell-executed command node.
#[derive(Debug, PartialEq, Eq)]
pub struct ShellProperties {
    pub command: String,
}

/// How a node produces its output: `Initial` is the identity (the node's
/// own `value`), `Shell` runs a command line in a shell.
#[derive(Debug, PartialEq, Eq)]
pub enum CommandKind {
    Initial,
    Shell(ShellProperties),
}

/// Why an execution produced no output value.
#[derive(Debug, PartialEq, Eq)]
pub enum CommandResultError {
    /// The process exited with the given non-zero code; the string is its
    /// captured standard error.
    FailedWithCode(String, i32),
    /// The process could not be run to a normal exit (spawn failure, or
    /// termination by a signal).
    ExecutionFailed(String),
}

/// What happens after a node's execution succeeds: `Exit` ends the session
/// with the output as the final value, `Next` re-parses the output as a
/// new sub-tree to drill into.
#[derive(Debug, Clone, Copy, PartialEq, Eq, Structural)]
pub enum ActionKind {
    Exit,
    Next,
}

/// A node's children: an arena of nodes addressed by dense indices, plus
/// the sequence of indices that defines the display order.
#[derive(Debug, PartialEq, Eq)]
pub struct Items {
    pub items: Vec<Command>,
    pub order: Vec<usize>,
}

/// One node of the command tree.
#[derive(Debug, PartialEq, Eq)]
pub struct Command {
    pub value: String,
    pub kind: CommandKind,
    pub icon: Option<String>,
    pub action: ActionKind,
    pub items: Items,
}

/// Model of a `CommandKind`.
pub enum CommandKindV {
    Initial,
    Shell(Seq<char>),
}

/// Model of a `Command`: its text fields as character sequences, the
/// models of its children arena, and its order sequence.
#[verifier::ext_equal]
pub struct CommandV {
    pub value: Seq<char>,
    pub kind: CommandKindV,
    pub icon: Option<Seq<char>>,
    pub action: ActionKind,
    pub children: Seq<CommandV>,
    pub order: Seq<usize>,
}

impl CommandKind {
    pub open spec fn model(self) -> CommandKindV {
        match self {
            CommandKind::Initial => CommandKindV::Initial,
            CommandKind::Shell(p) => CommandKindV::Shell(p.command@),
        }
    }
}

impl Command {
    pub open spec fn model(self) -> CommandV
        decreases self,
    {
        CommandV {
            value: self.value@,
            kind: self.kind.model(),
            icon: match self.icon {
                Some(s) => Some(s@),
                None => None,
            },
            action: self.action,
            children: models_of(self.items.items@),
            order: self.items.order@,
        }
    }

    /// Every identifier in the order sequence addresses a node of the
    /// arena, and every child is itself well formed.
    pub open spec fn wf(self) -> bool
        decreases self,
    {
        &&& forall|k: int|
            0 <= k < self.items.order@.len() ==> (#[trigger] self.items.order@[k])
                < self.items.items@.len()
        &&& forall|i: int|
            0 <= i < self.items.items@.len() ==> (#[trigger] self.items.items@[i]).wf()
    }
}

/// The models of a sequence of nodes, element for element.
pub open spec fn models_of(s: Seq<Command>) -> Seq<CommandV>
    decreases s,
{
    if s.len() == 0 {
        Seq::empty()
    } else {
        models_of(s.drop_last()).push(s.last().model())
    }
}

pub broadcast proof fn lemma_models_of(s: Seq<Command>)
    ensures
        (#[trigger] models_of(s)).len() == s.len(),
        forall|i: int| 0 <= i < s.len() ==> models_of(s)[i] == s[i].model(),
    decreases s.len(),
{
    if s.len() > 0 {
        lemma_models_of(s.drop_last());
    }
}

impl Clone for CommandResultError {
    fn clone(&self) -> (r: Self)
        ensures
            r == *self,
    {
        match self {
            CommandResultError::FailedWithCode(out, code) => CommandResultError::FailedWithCode(
                out.clone(),
                *code,
            ),
            CommandResultError::ExecutionFailed(msg) => CommandResultError::ExecutionFailed(
                msg.clone(),
            ),
        }
    }
}

impl Clone for ShellProperties {
    fn clone(&self) -> (r: Self)
        ensures
            r.command@ == self.command@,
    {
        ShellProperties { command: self.command.clone() }
    }
}

impl Clone for CommandKind {
    fn clone(&self) -> (r: Self)
        ensures
            r.model() == self.model(),
    {
        match self {
            CommandKind::Initial => CommandKind::Initial,
            CommandKind::Shell(p) => CommandKind::Shell(p.clone()),
        }
    }
}

/// A copy of an identifier sequence.
pub fn clone_ids(v: &Vec<usize>) -> (r: Vec<usize>)
    ensures
        r@ == v@,
{
    let mut out: Vec<usize> = Vec::new();
    let mut i: usize = 0;
    while i < v.len()
        invariant
            i <= v@.len(),
            out@ == v@.subrange(0, i as int),
        decreases v@.len() - i,
    {
        out.push(v[i]);
        proof {
            assert(out@ =~= v@.subrange(0, i + 1));
        }
        i = i + 1;
    }
    proof {
        assert(v@.subrange(0, v@.len() as int) =~= v@);
    }
    out
}

/// A copy of an arena whose nodes model identically to the originals.
pub fn clone_commands(v: &Vec<Command>) -> (r: Vec<Command>)
    ensures
        r@.len() == v@.len(),
        forall|i: int| 0 <= i < v@.len() ==> (#[trigger] r@[i]).model() == v@[i].model(),
        forall|i: int| 0 <= i < v@.len() && v@[i].wf() ==> (#[trigger] r@[i]).wf(),
        models_of(r@) == models_of(v@),
    decreases v@,
{
    let mut out: Vec<Command> = Vec::new();
    let mut i: usize = 0;
    while i < v.len()
        invariant
            i <= v@.len(),
            out@.len() == i as int,
            forall|k: int| 0 <= k < i ==> (#[trigger] out@[k]).model() == v@[k].model(),
            forall|k: int| 0 <= k < i && v@[k].wf() ==> (#[trigger] out@[k]).wf(),
        decreases v@.len() - i,
    {
        let c = v[i].clone();
        out.push(c);
        i = i + 1;
    }
    proof {
        lemma_models_of(out@);
        lemma_models_of(v@);
        assert(models_of(out@) =~= models_of(v@));
    }
    out
}

impl Clone for Items {
    fn clone(&self) -> (r: Self)
        ensures
            models_of(r.items@) == models_of(self.items@),
            r.order@ == self.order@,
            forall|i: int|
                0 <= i < self.items@.len() && self.items@[i].wf() ==> (#[trigger] r.items@[i]).wf(),
            r.items@.len() == self.items@.len(),
    {
        Items { items: clone_commands(&self.items), order: clone_ids(&self.order) }
    }
}

impl Clone for Command {
    fn clone(&self) -> (r: Self)
        ensures
            r.model() == self.model(),
            self.wf() ==> r.wf(),
        decreases *self,
    {
        let kids = clone_commands(&self.items.items);
        let icon = match &self.icon {
            Some(s) => Some(s.clone()),
            None => None,
        };
        let r = Command {
            value: self.value.clone(),
            kind: self.kind.clone(),
            icon,
            action: self.action,
            items: Items { items: kids, order: clone_ids(&self.items.order) },
        };
        proof {
            assert(r.model() =~= self.model());
        }
        r
    }
}

impl Default for Command {
    /// An empty `Initial` node with an empty label and no children.
    fn default() -> (r: Command)
        ensures
            r.model().value == Seq::<char>::empty(),
            r.model().kind == CommandKindV::Initial,
            r.model().icon is None,
            r.model().action == ActionKind::Exit,
            r.model().children == Seq::<CommandV>::empty(),
            r.model().order == Seq::<usize>::empty(),
            r.wf(),
    {
        let r = Command {
            value: String::new(),
            kind: CommandKind::Initial,
            icon: None,
            action: ActionKind::Exit,
            items: Items { items: Vec::new(), order: Vec::new() },
        };
        proof {
            lemma_models_of(r.items.items@);
            assert(models_of(r.items.items@) =~= Seq::<CommandV>::empty());
        }
        r
    }
}

impl Command {
    /// The identifier and a copy of the child at position `index` of the
    /// current order, or nothing when `index` is out of range.
    pub fn get_child_command_by_index(&self, index: usize) -> (r: Option<(usize, Command)>)
        requires
            self.wf(),
        ensures
            match r {
                Some((id, cmd)) => {
                    &&& index < self.model().order.len()
                    &&& id == self.model().order[index as int]
                    &&& cmd.model() == self.model().children[id as int]
                    &&& cmd.wf()
                },
                None => index >= self.model().order.len(),
            },
    {
        proof {
            lemma_models_of(self.items.items@);
        }
        if index < self.items.order.len() {
            let id = self.items.order[index];
            Some((id, self.items.items[id].clone()))
        } else {
            None
        }
    }

    /// The position of identifier `id` in the order sequence, or nothing
    /// when it is absent; callers fall back to position 0 in that case.
    pub fn index_of_item_with_id(&self, id: usize) -> (r: Option<usize>)
        ensures
            match r {
                Some(i) => {
                    &&& i < self.model().order.len()
                    &&& self.model().order[i as int] == id
                    &&& forall|k: int| 0 <= k < i ==> self.model().order[k] != id
                },
                None => forall|k: int|
                    0 <= k < self.model().order.len() ==> self.model().order[k] != id,
            },
    {
        let mut i: usize = 0;
        while i < self.items.order.len()
            invariant
                i <= self.items.order@.len(),
                forall|k: int| 0 <= k < i ==> self.items.order@[k] != id,
            decreases self.items.order@.len() - i,
        {
            if self.items.order[i] == id {
                return Some(i);
            }
            i = i + 1;
        }
        None
    }

    /// The same node under a different display order; the arena of
    /// children is untouched, so this applies a filtered view without
    /// destructive mutation. The new order may not introduce foreign
    /// identifiers.
    pub fn with_order(&self, order: Vec<usize>) -> (r: Command)
        requires
            self.wf(),
            forall|k: int|
                (0 <= k < order@.len() ==> self.model().order.contains(#[trigger] order@[k])),
        ensures
            r.model() == (CommandV { order: order@, ..self.model() }),
            r.wf(),
    {
        let r = Command {
            value: self.value.clone(),
            kind: self.kind.clone(),
            icon: match &self.icon {
                Some(s) => Some(s.clone()),
                None => None,
            },
            action: self.action,
            items: Items { items: clone_commands(&self.items.items), order },
        };
        proof {
            assert(r.model() =~= CommandV { order: r.items.order@, ..self.model() });
            assert forall|k: int| 0 <= k < r.items.order@.len() implies (#[trigger] r.items
                .order@[k]) < r.items.items@.len() by {
                let id = r.items.order@[k];
                assert(self.model().order.contains(id));
                let j = choose|j: int|
                    0 <= j < self.model().order.len() && self.model().order[j] == id;
                assert(self.items.order@[j] < self.items.items@.len());
            }
        }
        r
    }

    /// The fixed visual height of one child row: the base row height plus
    /// spacing, the same for every command kind.
    pub fn command_kind_height(&self) -> (r: u64)
        ensures
            r == spec_row_height(),
    {
        SIMPLE_CMD_HEIGHT + 1 + 10
    }

    /// The vertical offset of the row at `index`: the summed heights of
    /// all rows strictly before it in the current order.
    pub fn scroll_offset_at_index(&self, index: usize) -> (r: u64)
        requires
            self.wf(),
            index <= self.model().order.len(),
            spec_row_height() * index <= u64::MAX,
        ensures
            r == spec_scroll_offset(self.model(), index as int),
    {
        let mut offset: u64 = 0;
        let mut i: usize = 0;
        proof {
            lemma_models_of(self.items.items@);
        }
        while i < index
            invariant
                self.wf(),
                index <= self.items.order@.len(),
                spec_row_height() * index <= u64::MAX,
                i <= index,
                self.model().order.len() == self.items.order@.len(),
                self.model().children.len() == self.items.items@.len(),
                offset == spec_scroll_offset(self.model(), i as int),
                offset <= spec_row_height() * i,
            decreases index - i,
        {
            let id = self.items.order[i];
            let h = self.command_kind_height();
            proof {
                assert(spec_row_height() * (i + 1) <= spec_row_height() * index) by (
                nonlinear_arith)
                    requires
                        i + 1 <= index,
                        spec_row_height() > 0,
                ;
                assert(spec_row_height() * (i + 1) == spec_row_height() * i + spec_row_height())
                    by (nonlinear_arith);
                assert(0 <= id < self.model().children.len());
            }
            offset = offset + h;
            i = i + 1;
        }
        offset
    }
}

/// Height of one rendered child row, spacing included.
pub open spec fn spec_row_height() -> int {
    SIMPLE_CMD_HEIGHT + 1 + 10
}

/// Sum of the row heights of the first `index` entries of the order; an
/// identifier outside the arena contributes no height.
pub open spec fn spec_scroll_offset(m: CommandV, index: int) -> int
    decreases index,
{
    if index <= 0 {
        0
    } else {
        spec_scroll_offset(m, index - 1) + (if 0 <= m.order[index - 1] < m.children.len() {
            spec_row_height()
        } else {
            0
        })
    }
}

/// The offset of the first row is zero.
pub proof fn lemma_scroll_offset_zero(m: CommandV)
    ensures
        spec_scroll_offset(m, 0) == 0,
{
}

/// Each row's offset exceeds its predecessor's by exactly the
/// predecessor's height.
pub proof fn lemma_scroll_offset_step(m: CommandV, k: int)
    requires
        0 < k <= m.order.len(),
        0 <= m.order[k - 1] < m.children.len(),
    ensures
        spec_scroll_offset(m, k) == spec_scroll_offset(m, k - 1) + spec_row_height(),
{
}


impl Command {
    /// Maps `f` over the ordered children — position, identifier, child —
    /// keeping the values it yields, in order. Every kept value is the
    /// result of one such call.
    pub fn map_filter_items<F, T>(&self, f: F) -> (r: Vec<T>) where F: Fn(
        usize,
        &usize,
        &Command,
    ) -> Option<T>
        requires
            self.wf(),
            forall|i: usize, id: &usize, c: &Command| #[trigger] f.requires((i, id, c)),
        ensures
            r@.len() <= self.items.order@.len(),
            maps_from(f, *self, r@),
    {
        let mut out: Vec<T> = Vec::new();
        let mut i: usize = 0;
        while i < self.items.order.len()
            invariant
                self.wf(),
                i <= self.items.order@.len(),
                out@.len() <= i as int,
                forall|i2: usize, id: &usize, c: &Command| #[trigger] f.requires((i2, id, c)),
                maps_from(f, *self, out@),
            decreases self.items.order@.len() - i,
        {
            let id_ref = &self.items.order[i];
            let child = &self.items.items[*id_ref];
            match f(i, id_ref, child) {
                Some(t) => {
                    out.push(t);
                },
                None => {},
            }
            i = i + 1;
        }
        out
    }
}

/// Every element of `out` is a value that one call of `f` on a position
/// of the order, the identifier there, and the child it addresses may
/// yield.
pub open spec fn maps_from<F, T>(f: F, node: Command, out: Seq<T>) -> bool where F: Fn(
    usize,
    &usize,
    &Command,
) -> Option<T> {
    forall|k: int|
        #![trigger out[k]]
        0 <= k < out.len() ==> exists|i: int|
            #![auto]
            0 <= i < node.items.order@.len() && call_ensures(
                f,
                (
                    i as usize,
                    &node.items.order@[i],
                    &node.items.items@[node.items.order@[i] as int],
                ),
                Some(out[k]),
            )
}

} // verus!
