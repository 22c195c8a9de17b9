//! The line mode: a flat palette whose items come from newline-separated
//! text rather than a JSON tree — one item per line, filtered by plain
//! substring containment, with its own history of snapshots. It is the
//! lightweight counterpart of the command tree for sources that are just
//! lists of lines.

use vstd::prelude::*;

use crate::text::is_substring;
use crate::text::lower_of;
use crate::text::spec_split_lines;
use crate::text::split_lines;
use crate::text::strs_views;
use crate::text::lemma_strs_views;
use crate::text::contains_substring;
use crate::text::to_lowercase;

verus! {

broadcast use lemma_strs_views;

/// Height of one rendered item row before spacing, in logical pixels.
pub const SIMPLE_CMD_HEIGHT: u64 = 28;

/// One palette item: for now the single simple kind.
#[derive(Debug, PartialEq, Eq)]
pub enum Item {
    Simple(Base),
}

/// The data of a simple item: its identifier and its display text.
#[derive(Debug, PartialEq, Eq)]
pub struct Base {
    pub id: usize,
    pub value: String,
}

/// Model of an `Item`.
pub struct ItemV {
    pub id: usize,
    pub value: Seq<char>,
}

impl Item {
    pub open spec fn model(self) -> ItemV {
        match self {
            Item::Simple(b) => ItemV { id: b.id, value: b.value@ },
        }
    }

    /// A simple item with the given identifier and display text.
    pub fn new(id: usize, value: String) -> (r: Item)
        ensures
            r.model() == (ItemV { id, value: value@ }),
    {
        Item::Simple(Base { id, value })
    }

    /// The item's display text.
    pub fn value(cmd: &Item) -> (r: &String)
        ensures
            r@ == cmd.model().value,
    {
        match cmd {
            Item::Simple(base) => &base.value,
        }
    }

    /// The item's identifier.
    pub fn id(cmd: &Item) -> (r: usize)
        ensures
            r == cmd.model().id,
    {
        match cmd {
            Item::Simple(base) => base.id,
        }
    }

    /// The fixed visual height of one item row, spacing included; the
    /// same for every item kind.
    pub fn height(cmd: &Item) -> (r: u64)
        ensures
            r == spec_item_height(),
    {
        match cmd {
            Item::Simple(_) => SIMPLE_CMD_HEIGHT + 1,
        }
    }
}

impl Clone for Item {
    fn clone(&self) -> (r: Self)
        ensures
            r.model() == self.model(),
    {
        match self {
            Item::Simple(b) => Item::Simple(Base { id: b.id, value: b.value.clone() }),
        }
    }
}

/// Height of one rendered item row, spacing included.
pub open spec fn spec_item_height() -> int {
    SIMPLE_CMD_HEIGHT + 1
}

/// How a mode's items came to be: plain lines, or the output of a shell
/// command whose properties are kept.
#[derive(Debug, PartialEq, Eq)]
pub enum ModeKind {
    Default,
    SyncShellCommand(ShellCommandProperties),
}

/// The command line behind a shell-produced mode.
#[derive(Debug, PartialEq, Eq)]
pub struct ShellCommandProperties {
    command: String,
}

/// Model of a `ModeKind`.
pub enum ModeKindV {
    Default,
    SyncShellCommand(Seq<char>),
}

impl ModeKind {
    pub closed spec fn model(self) -> ModeKindV {
        match self {
            ModeKind::Default => ModeKindV::Default,
            ModeKind::SyncShellCommand(p) => ModeKindV::SyncShellCommand(p.command@),
        }
    }
}

impl Clone for ModeKind {
    fn clone(&self) -> (r: Self)
        ensures
            r.model() == self.model(),
    {
        match self {
            ModeKind::Default => ModeKind::Default,
            ModeKind::SyncShellCommand(p) => ModeKind::SyncShellCommand(
                ShellCommandProperties { command: p.command.clone() },
            ),
        }
    }
}

/// A flat palette: its kind, an arena of items addressed by dense
/// indices, and the display order over those indices.
#[derive(Debug, PartialEq, Eq)]
pub struct Mode {
    pub kind: ModeKind,
    pub items: Vec<Item>,
    pub order: Vec<usize>,
}

/// Model of a `Mode`.
#[verifier::ext_equal]
pub struct ModeV {
    pub kind: ModeKindV,
    pub items: Seq<ItemV>,
    pub order: Seq<usize>,
}

/// A filtered view over a mode: a reduced identifier sequence.
#[derive(Debug, PartialEq, Eq)]
pub struct FilteredItems {
    pub items: Vec<usize>,
}

/// The models of a sequence of items, element for element.
pub open spec fn item_models_of(s: Seq<Item>) -> Seq<ItemV>
    decreases s,
{
    if s.len() == 0 {
        Seq::empty()
    } else {
        item_models_of(s.drop_last()).push(s.last().model())
    }
}

pub broadcast proof fn lemma_item_models_of(s: Seq<Item>)
    ensures
        (#[trigger] item_models_of(s)).len() == s.len(),
        forall|i: int| 0 <= i < s.len() ==> item_models_of(s)[i] == s[i].model(),
    decreases s.len(),
{
    if s.len() > 0 {
        lemma_item_models_of(s.drop_last());
    }
}

impl Mode {
    pub open spec fn model(self) -> ModeV {
        ModeV { kind: self.kind.model(), items: item_models_of(self.items@), order: self.order@ }
    }

    /// Every identifier of the order addresses an item of the arena.
    pub open spec fn wf(self) -> bool {
        forall|k: int| 0 <= k < self.order@.len() ==> (#[trigger] self.order@[k]) < self.items@.len()
    }
}

impl Default for Mode {
    /// An empty line mode with no items.
    fn default() -> (r: Mode)
        ensures
            r.model().kind == ModeKindV::Default,
            r.model().items == Seq::<ItemV>::empty(),
            r.model().order == Seq::<usize>::empty(),
            r.wf(),
    {
        let r = Mode { kind: ModeKind::Default, items: Vec::new(), order: Vec::new() };
        proof {
            assert(item_models_of(r.items@) =~= Seq::<ItemV>::empty());
        }
        r
    }
}

impl Clone for Mode {
    fn clone(&self) -> (r: Self)
        ensures
            r.model() == self.model(),
            self.wf() ==> r.wf(),
    {
        broadcast use lemma_item_models_of;

        let mut items: Vec<Item> = Vec::new();
        let mut i: usize = 0;
        while i < self.items.len()
            invariant
                i <= self.items@.len(),
                items@.len() == i as int,
                forall|k: int| 0 <= k < i ==> (#[trigger] items@[k]).model()
                    == self.items@[k].model(),
            decreases self.items@.len() - i,
        {
            let it = self.items[i].clone();
            items.push(it);
            i = i + 1;
        }
        let mut order: Vec<usize> = Vec::new();
        let mut k: usize = 0;
        while k < self.order.len()
            invariant
                k <= self.order@.len(),
                order@ == self.order@.subrange(0, k as int),
            decreases self.order@.len() - k,
        {
            order.push(self.order[k]);
            proof {
                assert(order@ =~= self.order@.subrange(0, k + 1));
            }
            k = k + 1;
        }
        let r = Mode { kind: self.kind.clone(), items, order };
        proof {
            assert(self.order@.subrange(0, self.order@.len() as int) =~= self.order@);
            assert(item_models_of(r.items@) =~= item_models_of(self.items@));
            assert(r.model() =~= self.model());
        }
        r
    }
}

impl Mode {
    /// The line mode for newline-separated text: one item per line, in
    /// line order, each line's position as its identifier.
    pub fn from_string(data: String) -> (r: Mode)
        ensures
            r.model().kind == ModeKindV::Default,
            r.model().items.len() == spec_split_lines(data@).len(),
            forall|i: int|
                0 <= i < r.model().items.len() ==> (#[trigger] r.model().items[i]) == (ItemV {
                    id: i as usize,
                    value: spec_split_lines(data@)[i],
                }),
            r.model().order.len() == r.model().items.len(),
            forall|i: int|
                0 <= i < r.model().order.len() ==> (#[trigger] r.model().order[i]) == i as usize,
            r.wf(),
    {
        broadcast use lemma_item_models_of;

        let lines = split_lines(data.as_str());
        let mut items: Vec<Item> = Vec::new();
        let mut order: Vec<usize> = Vec::new();
        let mut i: usize = 0;
        while i < lines.len()
            invariant
                i <= lines@.len(),
                items@.len() == i as int,
                order@.len() == i as int,
                strs_views(lines@) == spec_split_lines(data@),
                forall|k: int|
                    0 <= k < i ==> (#[trigger] items@[k]).model() == (ItemV {
                        id: k as usize,
                        value: lines@[k]@,
                    }),
                forall|k: int| 0 <= k < i ==> (#[trigger] order@[k]) == k as usize,
            decreases lines@.len() - i,
        {
            let line = lines[i].clone();
            items.push(Item::Simple(Base { id: i, value: line }));
            order.push(i);
            i = i + 1;
        }
        let r = Mode { kind: ModeKind::Default, items, order };
        proof {
            assert forall|k: int| 0 <= k < r.model().items.len() implies (#[trigger] r.model()
                .items[k]) == (ItemV { id: k as usize, value: spec_split_lines(data@)[k] }) by {
            }
        }
        r
    }

    /// A copy of the item at position `index` of the current order, or
    /// nothing when `index` is out of range.
    pub fn get_by_index(&self, index: usize) -> (r: Option<Item>)
        requires
            self.wf(),
        ensures
            match r {
                Some(item) => {
                    &&& index < self.model().order.len()
                    &&& item.model() == self.model().items[self.model().order[index as int] as int]
                },
                None => index >= self.model().order.len(),
            },
    {
        broadcast use lemma_item_models_of;

        if index < self.order.len() {
            let id = self.order[index];
            Some(self.items[id].clone())
        } else {
            None
        }
    }

    /// Maps `f` over the ordered items — position, identifier, item —
    /// collecting its results in order. Every collected value is the
    /// result of one such call.
    pub fn map<F, T>(&self, f: F) -> (r: Vec<T>) where F: Fn(usize, &usize, &Item) -> T
        requires
            self.wf(),
            forall|i: usize, id: &usize, c: &Item| #[trigger] f.requires((i, id, c)),
        ensures
            r@.len() == self.order@.len(),
            mode_maps_from(f, *self, r@),
    {
        let mut out: Vec<T> = Vec::new();
        let mut i: usize = 0;
        while i < self.order.len()
            invariant
                self.wf(),
                i <= self.order@.len(),
                out@.len() == i as int,
                forall|i2: usize, id: &usize, c: &Item| #[trigger] f.requires((i2, id, c)),
                mode_maps_from(f, *self, out@),
            decreases self.order@.len() - i,
        {
            let id_ref = &self.order[i];
            let item = &self.items[*id_ref];
            let t = f(i, id_ref, item);
            out.push(t);
            i = i + 1;
        }
        out
    }

    /// The vertical offset of the row at `index`: the summed heights of
    /// all rows strictly before it in the current order.
    pub fn scroll_offset_at_index(self, index: usize) -> (r: u64)
        requires
            self.wf(),
            index <= self.model().order.len(),
            spec_item_height() * index <= u64::MAX,
        ensures
            r == spec_mode_scroll_offset(self.model(), index as int),
    {
        broadcast use lemma_item_models_of;

        let mut offset: u64 = 0;
        let mut i: usize = 0;
        while i < index
            invariant
                self.wf(),
                index <= self.order@.len(),
                spec_item_height() * index <= u64::MAX,
                i <= index,
                self.model().order.len() == self.order@.len(),
                self.model().items.len() == self.items@.len(),
                offset == spec_mode_scroll_offset(self.model(), i as int),
                offset <= spec_item_height() * i,
            decreases index - i,
        {
            let id = self.order[i];
            let h = Item::height(&self.items[id]);
            proof {
                assert(spec_item_height() * (i + 1) <= spec_item_height() * index) by (
                nonlinear_arith)
                    requires
                        i + 1 <= index,
                        spec_item_height() > 0,
                ;
                assert(spec_item_height() * (i + 1) == spec_item_height() * i
                    + spec_item_height()) by (nonlinear_arith);
            }
            offset = offset + h;
            i = i + 1;
        }
        offset
    }

    /// The same mode under a filtered display order; the item arena is
    /// untouched. The filtered order may not introduce foreign
    /// identifiers.
    pub fn with_filtered_order(self, filtered_cmds: &FilteredItems) -> (r: Mode)
        requires
            self.wf(),
            forall|k: int|
                0 <= k < filtered_cmds.items@.len() ==> (#[trigger] filtered_cmds.items@[k])
                    < self.items@.len(),
        ensures
            r.model() == (ModeV { order: filtered_cmds.items@, ..self.model() }),
            r.wf(),
    {
        let mut order: Vec<usize> = Vec::new();
        let mut k: usize = 0;
        while k < filtered_cmds.items.len()
            invariant
                k <= filtered_cmds.items@.len(),
                order@ == filtered_cmds.items@.subrange(0, k as int),
            decreases filtered_cmds.items@.len() - k,
        {
            order.push(filtered_cmds.items[k]);
            proof {
                assert(order@ =~= filtered_cmds.items@.subrange(0, k + 1));
            }
            k = k + 1;
        }
        let r = Mode { kind: self.kind, items: self.items, order };
        proof {
            assert(filtered_cmds.items@.subrange(0, filtered_cmds.items@.len() as int)
                =~= filtered_cmds.items@);
            assert(r.model() =~= (ModeV { order: filtered_cmds.items@, ..self.model() }));
        }
        r
    }

    /// The identifiers of the items whose text contains `substring`,
    /// case-insensitively, in their original order.
    pub fn filter_by_value(&self, substring: &str) -> (r: FilteredItems)
        requires
            self.wf(),
        ensures
            r.items@ == mode_survivors(self.model().items, self.model().order, substring@),
            forall|k: int|
                0 <= k < r.items@.len() ==> (#[trigger] r.items@[k]) < self.model().items.len(),
    {
        broadcast use lemma_item_models_of;

        let ghost items_m = self.model().items;
        let ghost q = substring@;
        let lq = to_lowercase(substring);
        let mut out: Vec<usize> = Vec::new();
        let mut i: usize = 0;
        proof {
            assert(self.order@.subrange(0, 0) =~= Seq::<usize>::empty());
        }
        while i < self.order.len()
            invariant
                self.wf(),
                i <= self.order@.len(),
                q == substring@,
                lq@ == lower_of(q),
                items_m == self.model().items,
                items_m.len() == self.items@.len(),
                out@ == mode_survivors(items_m, self.order@.subrange(0, i as int), q),
                forall|k: int| 0 <= k < out@.len() ==> (#[trigger] out@[k]) < self.items@.len(),
            decreases self.order@.len() - i,
        {
            let id = self.order[i];
            let item_ref = &self.items[id];
            let lv = match item_ref {
                Item::Simple(base) => to_lowercase(base.value.as_str()),
            };
            proof {
                lemma_item_models_of(self.items@);
                assert(items_m[id as int] == self.items@[id as int].model());
                assert(self.order@.subrange(0, i + 1).drop_last() =~= self.order@.subrange(
                    0,
                    i as int,
                ));
                assert(self.order@.subrange(0, i + 1).last() == id);
            }
            if contains_substring(lv.as_str(), lq.as_str()) {
                out.push(id);
            }
            i = i + 1;
        }
        proof {
            assert(self.order@.subrange(0, self.order@.len() as int) =~= self.order@);
        }
        FilteredItems { items: out }
    }
}

/// Sum of the row heights of the first `index` entries of the order; an
/// identifier outside the arena contributes no height.
pub open spec fn spec_mode_scroll_offset(m: ModeV, index: int) -> int
    decreases index,
{
    if index <= 0 {
        0
    } else {
        spec_mode_scroll_offset(m, index - 1) + (if 0 <= m.order[index - 1] < m.items.len() {
            spec_item_height()
        } else {
            0
        })
    }
}

/// The identifiers of `order` whose items' lowercased text contains the
/// lowercased query, in their original order.
pub open spec fn mode_survivors(items: Seq<ItemV>, order: Seq<usize>, q: Seq<char>) -> Seq<usize>
    decreases order.len(),
{
    if order.len() == 0 {
        Seq::empty()
    } else {
        let pre = mode_survivors(items, order.drop_last(), q);
        if is_substring(lower_of(q), lower_of(items[order.last() as int].value)) {
            pre.push(order.last())
        } else {
            pre
        }
    }
}

/// Every element of `out` is a value that one call of `f` on a position
/// of the order, the identifier there, and the item it addresses may
/// yield.
pub open spec fn mode_maps_from<F, T>(f: F, mode: Mode, out: Seq<T>) -> bool where F: Fn(
    usize,
    &usize,
    &Item,
) -> T {
    forall|k: int|
        #![trigger out[k]]
        0 <= k < out.len() ==> exists|i: int|
            #![auto]
            0 <= i < mode.order@.len() && call_ensures(
                f,
                (i as usize, &mode.order@[i], &mode.items@[mode.order@[i] as int]),
                out[k],
            )
}

/// The stack of line-mode snapshots; the last element is the head.
#[derive(Debug)]
pub struct History {
    pub history: Vec<Mode>,
}

/// The models of a sequence of modes, element for element.
pub open spec fn mode_models_of(s: Seq<Mode>) -> Seq<ModeV>
    decreases s,
{
    if s.len() == 0 {
        Seq::empty()
    } else {
        mode_models_of(s.drop_last()).push(s.last().model())
    }
}

pub broadcast proof fn lemma_mode_models_of(s: Seq<Mode>)
    ensures
        (#[trigger] mode_models_of(s)).len() == s.len(),
        forall|i: int| 0 <= i < s.len() ==> mode_models_of(s)[i] == s[i].model(),
    decreases s.len(),
{
    if s.len() > 0 {
        lemma_mode_models_of(s.drop_last());
    }
}

impl History {
    /// The history models to the sequence of its snapshots' models,
    /// oldest first.
    pub open spec fn model(self) -> Seq<ModeV> {
        mode_models_of(self.history@)
    }

    /// Appends a new head snapshot.
    pub fn push(self, cmds: Mode) -> (r: History)
        ensures
            r.model() == self.model().push(cmds.model()),
    {
        broadcast use lemma_mode_models_of;

        let mut list = self.history;
        list.push(cmds);
        let r = History { history: list };
        proof {
            assert(r.model() =~= self.model().push(cmds.model()));
        }
        r
    }

    /// Removes the head snapshot; on an empty history this is a no-op.
    pub fn pop(self) -> (r: History)
        ensures
            self.model().len() == 0 ==> r.model() == self.model(),
            self.model().len() > 0 ==> r.model() == self.model().drop_last(),
    {
        broadcast use lemma_mode_models_of;

        let mut list = self.history;
        let ghost before = list@;
        let popped = list.pop();
        let r = History { history: list };
        proof {
            if before.len() > 0 {
                assert(list@ =~= before.drop_last());
                assert(r.model() =~= self.model().drop_last());
            } else {
                assert(list@ =~= before);
            }
        }
        r
    }

    /// A copy of the head snapshot, or nothing when the history was
    /// never seeded.
    pub fn head(self) -> (r: Option<Mode>)
        ensures
            match r {
                Some(m) => self.model().len() > 0 && m.model() == self.model().last(),
                None => self.model().len() == 0,
            },
    {
        broadcast use lemma_mode_models_of;

        if self.history.len() > 0 {
            let m = self.history[self.history.len() - 1].clone();
            Some(m)
        } else {
            None
        }
    }

    /// The head snapshot together with the rest of the history, or
    /// nothing when the history is empty.
    pub fn split(self) -> (r: Option<(Mode, History)>)
        ensures
            match r {
                Some((m, rest)) => {
                    &&& self.model().len() > 0
                    &&& m.model() == self.model().last()
                    &&& rest.model() == self.model().drop_last()
                },
                None => self.model().len() == 0,
            },
    {
        broadcast use lemma_mode_models_of;

        let mut list = self.history;
        let ghost before = list@;
        match list.pop() {
            Some(m) => {
                let rest = History { history: list };
                proof {
                    assert(list@ =~= before.drop_last());
                    assert(rest.model() =~= self.model().drop_last());
                }
                Some((m, rest))
            },
            None => None,
        }
    }

    /// The number of snapshots on the stack.
    pub fn len(self) -> (r: usize)
        ensures
            r == self.model().len(),
    {
        proof {
            lemma_mode_models_of(self.history@);
        }
        self.history.len()
    }
}

impl Clone for History {
    fn clone(&self) -> (r: Self)
        ensures
            r.model() == self.model(),
    {
        broadcast use lemma_mode_models_of;

        let mut list: Vec<Mode> = Vec::new();
        let mut i: usize = 0;
        while i < self.history.len()
            invariant
                i <= self.history@.len(),
                list@.len() == i as int,
                forall|k: int| 0 <= k < i ==> (#[trigger] list@[k]).model()
                    == self.history@[k].model(),
            decreases self.history@.len() - i,
        {
            let m = self.history[i].clone();
            list.push(m);
            i = i + 1;
        }
        let r = History { history: list };
        proof {
            lemma_mode_models_of(list@);
            lemma_mode_models_of(self.history@);
            assert(r.model() =~= self.model());
        }
        r
    }
}

impl Default for History {
    /// A history with no snapshots.
    fn default() -> (r: History)
        ensures
            r.model() == Seq::<ModeV>::empty(),
    {
        let r = History { history: Vec::new() };
        proof {
            assert(r.model() =~= Seq::<ModeV>::empty());
        }
        r
    }
}

} // verus!
