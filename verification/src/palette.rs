//! The palette session's UI-facing decisions, verified: which rows the
//! current tree shows for a query, which child a submission targets, and
//! where the selection moves on a keyboard step. Rendering and input
//! handling are outside collaborators that call these and act on the
//! results.

use vstd::prelude::*;

use crate::commands::Command;
use crate::commands::CommandV;
use crate::commands::lemma_models_of;
use crate::commands::spec_row_height;
use crate::commands::spec_scroll_offset;

verus! {

broadcast use lemma_models_of;

/// The transient selection over the current view: absent means the first
/// visible row is implicitly selected.
#[derive(Debug, Clone, Copy, PartialEq, Eq, Structural)]
pub enum Selection {
    Initial,
    Selected(usize),
}

/// One visible row of the palette: a child's identifier, its display
/// value, and whether it is the selected row.
#[derive(Debug, PartialEq, Eq)]
pub struct ViewEntry {
    pub id: usize,
    pub value: String,
    pub selected: bool,
}

/// Whether the row at position `idx` showing child `id` is selected: an
/// explicit selection names the identifier; the implicit one is row 0.
pub open spec fn spec_is_selected(sel: Selection, idx: int, id: usize) -> bool {
    match sel {
        Selection::Initial => idx == 0,
        Selection::Selected(sid) => sid == id,
    }
}

/// The position of the first occurrence of `id` in `order`, if any.
pub open spec fn find_first(order: Seq<usize>, id: usize) -> Option<int>
    decreases order.len(),
{
    if order.len() == 0 {
        None
    } else if order[0] == id {
        Some(0)
    } else {
        match find_first(order.drop_first(), id) {
            Some(i) => Some(i + 1),
            None => None,
        }
    }
}

/// A first-occurrence search behaves like a scan: if the first `i`
/// entries differ from `id`, the search is decided at position `i`.
pub proof fn lemma_find_first_at(order: Seq<usize>, id: usize, i: int)
    requires
        0 <= i <= order.len(),
        forall|k: int| 0 <= k < i ==> order[k] != id,
    ensures
        i == order.len() ==> find_first(order, id) is None,
        i < order.len() && order[i] == id ==> find_first(order, id) == Some(i),
    decreases order.len(),
{
    if order.len() > 0 && i > 0 {
        let rest = order.drop_first();
        assert forall|k: int| 0 <= k < i - 1 implies rest[k] != id by {
            assert(rest[k] == order[k + 1]);
        }
        lemma_find_first_at(rest, id, i - 1);
        if i < order.len() {
            assert(rest[i - 1] == order[i]);
        }
    }
}

/// `x` forced into the closed range `lo … hi`.
pub open spec fn spec_clamp(x: int, lo: int, hi: int) -> int {
    if x < lo {
        lo
    } else if x > hi {
        hi
    } else {
        x
    }
}

/// The identifier a submission targets: an explicitly requested child,
/// else the selected one, else the first of the visible order (the
/// filtered view when one is applied, the natural order otherwise) —
/// and only if that identifier addresses a child of the arena.
pub open spec fn spec_submit_target(
    m: CommandV,
    filter: Option<Seq<usize>>,
    sel: Selection,
    requested: Option<usize>,
) -> Option<usize> {
    let id_opt = match requested {
        Some(id) => Some(id),
        None => match sel {
            Selection::Selected(sid) => Some(sid),
            Selection::Initial => {
                let order = match filter {
                    Some(f) => f,
                    None => m.order,
                };
                if order.len() > 0 {
                    Some(order[0])
                } else {
                    None
                }
            },
        },
    };
    match id_opt {
        Some(id) => if id < m.children.len() {
            Some(id)
        } else {
            None
        },
        None => None,
    }
}

/// Where the selection lands after moving `amount` rows from the current
/// one, clamped to the order's bounds, with the scroll offset of the
/// landing row; nothing when the clamp lands one past the end, which
/// resets the selection.
pub open spec fn spec_select_shifted(m: CommandV, sel: Selection, amount: int) -> Option<
    (usize, int),
> {
    let start: int = match sel {
        Selection::Initial => 0,
        Selection::Selected(sid) => match find_first(m.order, sid) {
            Some(i) => i,
            None => 0,
        },
    };
    let next = spec_clamp(start + amount, 0, m.order.len() as int);
    if next < m.order.len() {
        Some((m.order[next], spec_scroll_offset(m, next)))
    } else {
        None
    }
}

/// The model of an optional filtered view.
pub open spec fn filter_model(filter: Option<Vec<usize>>) -> Option<Seq<usize>> {
    match filter {
        Some(f) => Some(f@),
        None => None,
    }
}

impl Command {
    /// The rows the palette shows for this node under the given query
    /// and selection: the filtered, ranked identifiers, each with its
    /// child's display value and its selection flag.
    pub fn current_view(&self, query: &str, selection: &Selection) -> (r: Vec<ViewEntry>)
        requires
            self.wf(),
        ensures
            r@.len() == self.spec_filter(query@).len(),
            forall|k: int|
                0 <= k < r@.len() ==> {
                    &&& (#[trigger] r@[k]).id == self.spec_filter(query@)[k]
                    &&& r@[k].value@ == self.model().children[self.spec_filter(
                        query@,
                    )[k] as int].value
                    &&& r@[k].selected == spec_is_selected(
                        *selection,
                        k,
                        self.spec_filter(query@)[k],
                    )
                },
    {
        proof {
            lemma_models_of(self.items.items@);
        }
        let ids = self.filter_items_by_value(query);
        let mut r: Vec<ViewEntry> = Vec::new();
        let mut k: usize = 0;
        while k < ids.len()
            invariant
                self.wf(),
                k <= ids@.len(),
                ids@ == self.spec_filter(query@),
                forall|t: int|
                    0 <= t < ids@.len() ==> (#[trigger] ids@[t]) < self.items.items@.len(),
                self.model().children.len() == self.items.items@.len(),
                r@.len() == k as int,
                forall|t: int|
                    0 <= t < k ==> {
                        &&& (#[trigger] r@[t]).id == ids@[t]
                        &&& r@[t].value@ == self.model().children[ids@[t] as int].value
                        &&& r@[t].selected == spec_is_selected(*selection, t, ids@[t])
                    },
            decreases ids@.len() - k,
        {
            let id = ids[k];
            let value = self.items.items[id].value.clone();
            let selected = match selection {
                Selection::Initial => k == 0,
                Selection::Selected(sid) => *sid == id,
            };
            proof {
                lemma_models_of(self.items.items@);
                assert(self.model().children[id as int] == self.items.items@[id as int].model());
            }
            r.push(ViewEntry { id, value, selected });
            k = k + 1;
        }
        r
    }

    /// The identifier a submission of this node's view targets, as
    /// `spec_submit_target` decides it; nothing when there is no
    /// selectable child, which the caller reports as the absence of any
    /// selectable item.
    pub fn submit_target(
        &self,
        filter: &Option<Vec<usize>>,
        selection: &Selection,
        requested: Option<usize>,
    ) -> (r: Option<usize>)
        requires
            self.wf(),
        ensures
            r == spec_submit_target(self.model(), filter_model(*filter), *selection, requested),
    {
        let id_opt: Option<usize> = match requested {
            Some(id) => Some(id),
            None => match selection {
                Selection::Selected(sid) => Some(*sid),
                Selection::Initial => {
                    match filter {
                        Some(f) => if f.len() > 0 {
                            Some(f[0])
                        } else {
                            None
                        },
                        None => if self.items.order.len() > 0 {
                            Some(self.items.order[0])
                        } else {
                            None
                        },
                    }
                },
            },
        };
        proof {
            lemma_models_of(self.items.items@);
        }
        match id_opt {
            Some(id) => if id < self.items.items.len() {
                Some(id)
            } else {
                None
            },
            None => None,
        }
    }

    /// The selection after a keyboard step of `amount` rows, with the
    /// scroll offset of the landing row; stepping one past the end lands
    /// nowhere and resets the selection.
    pub fn select_shifted(&self, selection: &Selection, amount: i32) -> (r: Option<(usize, u64)>)
        requires
            self.wf(),
            self.model().order.len() <= i32::MAX,
            spec_row_height() * self.model().order.len() <= u64::MAX,
        ensures
            match r {
                Some((id, off)) => spec_select_shifted(self.model(), *selection, amount as int)
                    == Some((id, off as int)),
                None => spec_select_shifted(self.model(), *selection, amount as int) is None,
            },
    {
        let len = self.items.order.len();
        let start: usize = match selection {
            Selection::Initial => 0,
            Selection::Selected(sid) => {
                let found = self.index_of_item_with_id(*sid);
                proof {
                    match found {
                        Some(i) => lemma_find_first_at(self.model().order, *sid, i as int),
                        None => lemma_find_first_at(
                            self.model().order,
                            *sid,
                            self.model().order.len() as int,
                        ),
                    }
                }
                match found {
                    Some(i) => i,
                    None => 0,
                }
            },
        };
        let shifted: i64 = start as i64 + amount as i64;
        let next: usize = if shifted < 0 {
            0
        } else if shifted > len as i64 {
            len
        } else {
            shifted as usize
        };
        if next < len {
            let id = self.items.order[next];
            proof {
                assert(spec_row_height() * next <= spec_row_height() * self.model().order.len())
                    by (nonlinear_arith)
                    requires
                        next <= self.model().order.len(),
                        spec_row_height() > 0,
                ;
            }
            let off = self.scroll_offset_at_index(next);
            Some((id, off))
        } else {
            None
        }
    }
}

} // verus!
