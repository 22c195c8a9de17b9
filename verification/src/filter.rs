//! The filter engine: narrows a node's children to those whose value
//! contains the query (case-insensitively) and ranks the survivors by
//! ascending edit distance between value and query, ties keeping their
//! original relative order. An empty query clears filtering entirely and
//! restores the natural order. The result is a view — an identifier
//! sequence — and never mutates the node.

use vstd::prelude::*;

use crate::commands::Command;
use crate::commands::CommandV;
use crate::commands::clone_ids;
use crate::commands::lemma_models_of;
use crate::text::contains_substring;
use crate::text::edit_distance;
use crate::text::is_substring;
use crate::text::levenshtein_distance;
use crate::text::lower_of;
use crate::text::to_lowercase;

verus! {

broadcast use lemma_models_of;

/// The child addressed by `id` survives the query: its lowercased value
/// contains the lowercased query.
pub open spec fn child_matches(children: Seq<CommandV>, id: usize, q: Seq<char>) -> bool {
    is_substring(lower_of(q), lower_of(children[id as int].value))
}

/// The rank key of the child addressed by `id`: the edit distance between
/// its (original-case) value and the query.
pub open spec fn child_dist(children: Seq<CommandV>, id: usize, q: Seq<char>) -> nat {
    edit_distance(children[id as int].value, q)
}

/// The identifiers of `order` whose children survive the query, in their
/// original order.
pub open spec fn survivors(children: Seq<CommandV>, order: Seq<usize>, q: Seq<char>) -> Seq<usize>
    decreases order.len(),
{
    if order.len() == 0 {
        Seq::empty()
    } else {
        let pre = survivors(children, order.drop_last(), q);
        if child_matches(children, order.last(), q) {
            pre.push(order.last())
        } else {
            pre
        }
    }
}

/// `x` inserted into the distance-sorted sequence `s`, after every
/// element whose distance does not exceed its own — which keeps elements
/// of equal distance in arrival order.
pub open spec fn insert_by_dist(
    children: Seq<CommandV>,
    q: Seq<char>,
    x: usize,
    s: Seq<usize>,
) -> Seq<usize>
    decreases s.len(),
{
    if s.len() == 0 {
        seq![x]
    } else if child_dist(children, s[0], q) <= child_dist(children, x, q) {
        seq![s[0]] + insert_by_dist(children, q, x, s.drop_first())
    } else {
        seq![x] + s
    }
}

/// Stable insertion sort of `s` by ascending distance.
pub open spec fn sort_by_dist(children: Seq<CommandV>, q: Seq<char>, s: Seq<usize>) -> Seq<usize>
    decreases s.len(),
{
    if s.len() == 0 {
        Seq::empty()
    } else {
        insert_by_dist(children, q, s.last(), sort_by_dist(children, q, s.drop_last()))
    }
}

/// Non-decreasing distance along the whole sequence.
pub open spec fn sorted_by_dist(children: Seq<CommandV>, q: Seq<char>, s: Seq<usize>) -> bool {
    forall|i: int, j: int|
        0 <= i <= j < s.len() ==> child_dist(children, #[trigger] s[i], q) <= child_dist(
            children,
            #[trigger] s[j],
            q,
        )
}

impl Command {
    /// The filtered view for query `q`: the natural order when `q` is
    /// empty, otherwise the surviving identifiers ranked by distance.
    pub open spec fn spec_filter(self, q: Seq<char>) -> Seq<usize> {
        if q.len() == 0 {
            self.model().order
        } else {
            sort_by_dist(
                self.model().children,
                q,
                survivors(self.model().children, self.model().order, q),
            )
        }
    }
}

pub proof fn lemma_insert_by_dist_at(
    children: Seq<CommandV>,
    q: Seq<char>,
    x: usize,
    s: Seq<usize>,
    pos: int,
)
    requires
        0 <= pos <= s.len(),
        forall|k: int|
            0 <= k < pos ==> child_dist(children, #[trigger] s[k], q) <= child_dist(
                children,
                x,
                q,
            ),
        pos < s.len() ==> child_dist(children, s[pos], q) > child_dist(children, x, q),
    ensures
        insert_by_dist(children, q, x, s) == s.insert(pos, x),
    decreases s.len(),
{
    if s.len() == 0 {
        assert(insert_by_dist(children, q, x, s) =~= s.insert(pos, x));
    } else if pos == 0 {
        assert(insert_by_dist(children, q, x, s) =~= s.insert(pos, x));
    } else {
        let rest = s.drop_first();
        assert forall|k: int| 0 <= k < pos - 1 implies child_dist(children, #[trigger] rest[k], q)
            <= child_dist(children, x, q) by {
            assert(rest[k] == s[k + 1]);
        }
        lemma_insert_by_dist_at(children, q, x, rest, pos - 1);
        assert(insert_by_dist(children, q, x, s) =~= s.insert(pos, x));
    }
}

/// The elements of an insertion are the inserted one and those of the
/// sequence inserted into.
pub proof fn lemma_insert_by_dist_membership(
    children: Seq<CommandV>,
    q: Seq<char>,
    x: usize,
    s: Seq<usize>,
)
    ensures
        forall|e: usize|
            #[trigger] insert_by_dist(children, q, x, s).contains(e) <==> (e == x || s.contains(e)),
    decreases s.len(),
{
    let r = insert_by_dist(children, q, x, s);
    if s.len() == 0 {
        assert forall|e: usize| #[trigger] r.contains(e) implies (e == x || s.contains(e)) by {
            let i = choose|i: int| 0 <= i < r.len() && r[i] == e;
            assert(r[0] == x);
        }
        assert(r[0] == x);
    } else if child_dist(children, s[0], q) <= child_dist(children, x, q) {
        let rest = s.drop_first();
        lemma_insert_by_dist_membership(children, q, x, rest);
        let sub = insert_by_dist(children, q, x, rest);
        assert forall|e: usize| #[trigger] r.contains(e) implies (e == x || s.contains(e)) by {
            let i = choose|i: int| 0 <= i < r.len() && r[i] == e;
            if i == 0 {
                assert(s[0] == e);
            } else {
                assert(sub[i - 1] == e);
                assert(sub.contains(e));
                if e != x {
                    let j = choose|j: int| 0 <= j < rest.len() && rest[j] == e;
                    assert(s[j + 1] == e);
                }
            }
        }
        assert forall|e: usize| (e == x || s.contains(e)) implies #[trigger] r.contains(e) by {
            if e == x {
                assert(sub.contains(e));
                let j = choose|j: int| 0 <= j < sub.len() && sub[j] == e;
                assert(r[j + 1] == e);
            } else {
                let i = choose|i: int| 0 <= i < s.len() && s[i] == e;
                if i == 0 {
                    assert(r[0] == e);
                } else {
                    assert(rest[i - 1] == e);
                    assert(rest.contains(e));
                    assert(sub.contains(e));
                    let j = choose|j: int| 0 <= j < sub.len() && sub[j] == e;
                    assert(r[j + 1] == e);
                }
            }
        }
    } else {
        assert forall|e: usize| #[trigger] r.contains(e) implies (e == x || s.contains(e)) by {
            let i = choose|i: int| 0 <= i < r.len() && r[i] == e;
            if i > 0 {
                assert(s[i - 1] == e);
            }
        }
        assert forall|e: usize| (e == x || s.contains(e)) implies #[trigger] r.contains(e) by {
            if e == x {
                assert(r[0] == e);
            } else {
                let i = choose|i: int| 0 <= i < s.len() && s[i] == e;
                assert(r[i + 1] == e);
            }
        }
    }
}

/// Sorting reorders, never adds or drops.
pub proof fn lemma_sort_by_dist_membership(children: Seq<CommandV>, q: Seq<char>, s: Seq<usize>)
    ensures
        forall|e: usize| #[trigger] sort_by_dist(children, q, s).contains(e) <==> s.contains(e),
    decreases s.len(),
{
    if s.len() == 0 {
    } else {
        let pre = s.drop_last();
        lemma_sort_by_dist_membership(children, q, pre);
        lemma_insert_by_dist_membership(children, q, s.last(), sort_by_dist(children, q, pre));
        assert forall|e: usize| #[trigger] sort_by_dist(children, q, s).contains(e) implies
            s.contains(e) by {
            if e == s.last() {
                assert(s[s.len() - 1] == e);
            } else {
                assert(pre.contains(e));
                let i = choose|i: int| 0 <= i < pre.len() && pre[i] == e;
                assert(s[i] == e);
            }
        }
        assert forall|e: usize| s.contains(e) implies #[trigger] sort_by_dist(children, q,
            s).contains(e) by {
            let i = choose|i: int| 0 <= i < s.len() && s[i] == e;
            if i < s.len() - 1 {
                assert(pre[i] == e);
                assert(pre.contains(e));
            }
        }
    }
}

/// Every survivor comes from the order sequence and matches the query.
pub proof fn lemma_survivors_membership(children: Seq<CommandV>, order: Seq<usize>, q: Seq<char>)
    ensures
        forall|e: usize|
            #[trigger] survivors(children, order, q).contains(e) ==> order.contains(e)
                && child_matches(children, e, q),
        forall|k: int|
            0 <= k < order.len() && child_matches(children, #[trigger] order[k], q) ==> survivors(
                children,
                order,
                q,
            ).contains(order[k]),
    decreases order.len(),
{
    if order.len() > 0 {
        let pre = order.drop_last();
        lemma_survivors_membership(children, pre, q);
        let sub = survivors(children, pre, q);
        let r = survivors(children, order, q);
        assert forall|e: usize| #[trigger] r.contains(e) implies order.contains(e)
            && child_matches(children, e, q) by {
            let i = choose|i: int| 0 <= i < r.len() && r[i] == e;
            if i < sub.len() {
                assert(sub[i] == e);
                assert(sub.contains(e));
                let j = choose|j: int| 0 <= j < pre.len() && pre[j] == e;
                assert(order[j] == e);
            } else {
                assert(e == order.last());
                assert(order[order.len() - 1] == e);
            }
        }
        assert forall|k: int|
            0 <= k < order.len() && child_matches(children, #[trigger] order[k], q) implies
            r.contains(order[k]) by {
            if k < order.len() - 1 {
                assert(pre[k] == order[k]);
                assert(sub.contains(order[k]));
                let j = choose|j: int| 0 <= j < sub.len() && sub[j] == order[k];
                assert(r[j] == order[k]);
            } else {
                if child_matches(children, order.last(), q) {
                    assert(r[r.len() - 1] == order[k]);
                }
            }
        }
    }
}

/// Inserting by distance keeps the sequence sorted.
pub proof fn lemma_insert_by_dist_sorted(
    children: Seq<CommandV>,
    q: Seq<char>,
    x: usize,
    s: Seq<usize>,
)
    requires
        sorted_by_dist(children, q, s),
    ensures
        sorted_by_dist(children, q, insert_by_dist(children, q, x, s)),
    decreases s.len(),
{
    let r = insert_by_dist(children, q, x, s);
    if s.len() == 0 {
    } else if child_dist(children, s[0], q) <= child_dist(children, x, q) {
        let rest = s.drop_first();
        assert forall|i: int, j: int| 0 <= i <= j < rest.len() implies child_dist(
            children,
            #[trigger] rest[i],
            q,
        ) <= child_dist(children, #[trigger] rest[j], q) by {
            assert(rest[i] == s[i + 1]);
            assert(rest[j] == s[j + 1]);
        }
        lemma_insert_by_dist_sorted(children, q, x, rest);
        let sub = insert_by_dist(children, q, x, rest);
        lemma_insert_by_dist_membership(children, q, x, rest);
        assert forall|i: int, j: int| 0 <= i <= j < r.len() implies child_dist(
            children,
            #[trigger] r[i],
            q,
        ) <= child_dist(children, #[trigger] r[j], q) by {
            if i == 0 && j > 0 {
                assert(r[j] == sub[j - 1]);
                assert(sub.contains(sub[j - 1]));
                let e = sub[j - 1];
                if e == x {
                } else {
                    let k = choose|k: int| 0 <= k < rest.len() && rest[k] == e;
                    assert(rest[k] == s[k + 1]);
                    assert(child_dist(children, s[0], q) <= child_dist(children, s[k + 1], q));
                }
            } else if i > 0 {
                assert(r[i] == sub[i - 1]);
                assert(r[j] == sub[j - 1]);
            }
        }
    } else {
        assert forall|i: int, j: int| 0 <= i <= j < r.len() implies child_dist(
            children,
            #[trigger] r[i],
            q,
        ) <= child_dist(children, #[trigger] r[j], q) by {
            if i == 0 && j > 0 {
                assert(r[j] == s[j - 1]);
                assert(child_dist(children, s[0], q) <= child_dist(children, s[j - 1], q));
            } else if i > 0 {
                assert(r[i] == s[i - 1]);
                assert(r[j] == s[j - 1]);
            }
        }
    }
}

/// The sort's result is sorted.
pub proof fn lemma_sort_by_dist_sorted(children: Seq<CommandV>, q: Seq<char>, s: Seq<usize>)
    ensures
        sorted_by_dist(children, q, sort_by_dist(children, q, s)),
    decreases s.len(),
{
    if s.len() > 0 {
        lemma_sort_by_dist_sorted(children, q, s.drop_last());
        lemma_insert_by_dist_sorted(
            children,
            q,
            s.last(),
            sort_by_dist(children, q, s.drop_last()),
        );
    }
}

/// Filtering with an empty query is exactly the natural order. This is
/// the canonical behavior of a cleared search field.
pub proof fn lemma_filter_empty_query(node: Command)
    ensures
        node.spec_filter(Seq::<char>::empty()) == node.model().order,
{
}

/// A filtered view never shows an identifier whose value does not contain
/// the query (case-insensitively), never invents identifiers, shows every
/// child that does match, and ranks what it shows by non-decreasing edit
/// distance to the query.
pub proof fn lemma_filter_matches_and_ranked(node: Command, q: Seq<char>)
    requires
        q.len() > 0,
    ensures
        forall|e: usize|
            #[trigger] node.spec_filter(q).contains(e) ==> node.model().order.contains(e)
                && child_matches(node.model().children, e, q),
        forall|k: int|
            0 <= k < node.model().order.len() && child_matches(
                node.model().children,
                #[trigger] node.model().order[k],
                q,
            ) ==> node.spec_filter(q).contains(node.model().order[k]),
        sorted_by_dist(node.model().children, q, node.spec_filter(q)),
{
    let children = node.model().children;
    let order = node.model().order;
    lemma_survivors_membership(children, order, q);
    lemma_sort_by_dist_membership(children, q, survivors(children, order, q));
    lemma_sort_by_dist_sorted(children, q, survivors(children, order, q));
}

/// The identifier components of a ranked (distance, identifier) sequence.
pub open spec fn ids_of(s: Seq<(usize, usize)>) -> Seq<usize> {
    s.map_values(|p: (usize, usize)| p.1)
}

impl Command {
    /// The filtered, ranked view of this node's children for the given
    /// query: surviving identifiers by ascending edit distance, ties in
    /// original order; the natural order when the query is empty.
    pub fn filter_items_by_value(&self, substring: &str) -> (r: Vec<usize>)
        requires
            self.wf(),
        ensures
            r@ == self.spec_filter(substring@),
            forall|k: int| 0 <= k < r@.len() ==> (#[trigger] r@[k]) < self.model().children.len(),
    {
        let ghost children = self.model().children;
        let ghost q = substring@;
        proof {
            lemma_models_of(self.items.items@);
        }
        if substring.is_empty() {
            let r = clone_ids(&self.items.order);
            return r;
        }
        let lq = to_lowercase(substring);
        let mut ranked: Vec<(usize, usize)> = Vec::new();
        let mut i: usize = 0;
        proof {
            assert(self.items.order@.subrange(0, 0) =~= Seq::<usize>::empty());
        }
        while i < self.items.order.len()
            invariant
                self.wf(),
                q == substring@,
                q.len() > 0,
                lq@ == lower_of(q),
                children == self.model().children,
                children.len() == self.items.items@.len(),
                i <= self.items.order@.len(),
                ids_of(ranked@) == sort_by_dist(
                    children,
                    q,
                    survivors(children, self.items.order@.subrange(0, i as int), q),
                ),
                forall|k: int|
                    0 <= k < ranked@.len() ==> (#[trigger] ranked@[k]).0 == child_dist(
                        children,
                        ranked@[k].1,
                        q,
                    ),
                forall|k: int| 0 <= k < ranked@.len() ==> (#[trigger] ranked@[k]).1 < children.len(),
                sorted_by_dist(children, q, ids_of(ranked@)),
            decreases self.items.order@.len() - i,
        {
            let ghost prefix = self.items.order@.subrange(0, i as int);
            let ghost old_surv = survivors(children, prefix, q);
            let ghost old_ids = ids_of(ranked@);
            let id = self.items.order[i];
            let lv = to_lowercase(self.items.items[id].value.as_str());
            proof {
                lemma_models_of(self.items.items@);
                assert(children[id as int] == self.items.items@[id as int].model());
                assert(children[id as int].value == self.items.items@[id as int].value@);
                assert(self.items.order@.subrange(0, i + 1).drop_last() =~= prefix);
                assert(self.items.order@.subrange(0, i + 1).last() == id);
            }
            if contains_substring(lv.as_str(), lq.as_str()) {
                proof {
                    assert(child_matches(children, id, q));
                }
                let d = levenshtein_distance(self.items.items[id].value.as_str(), substring);
                let mut pos: usize = 0;
                while pos < ranked.len() && ranked[pos].0 <= d
                    invariant
                        pos <= ranked@.len(),
                        forall|k: int| 0 <= k < pos ==> (#[trigger] ranked@[k]).0 <= d,
                    decreases ranked@.len() - pos,
                {
                    pos = pos + 1;
                }
                proof {
                    assert forall|k: int| 0 <= k < pos implies child_dist(
                        children,
                        #[trigger] old_ids[k],
                        q,
                    ) <= child_dist(children, id, q) by {
                        assert(old_ids[k] == ranked@[k].1);
                    }
                    if pos < ranked@.len() {
                        assert(old_ids[pos as int] == ranked@[pos as int].1);
                    }
                    lemma_insert_by_dist_at(children, q, id, old_ids, pos as int);
                }
                ranked.insert(pos, (d, id));
                proof {
                    assert(ids_of(ranked@) =~= old_ids.insert(pos as int, id));
                    assert(survivors(children, self.items.order@.subrange(0, i + 1), q)
                        == old_surv.push(id));
                    let ghost new_surv = old_surv.push(id);
                    assert(new_surv.drop_last() =~= old_surv);
                    assert(sort_by_dist(children, q, new_surv) == insert_by_dist(
                        children,
                        q,
                        id,
                        sort_by_dist(children, q, old_surv),
                    ));
                    lemma_insert_by_dist_sorted(children, q, id, old_ids);
                }
            } else {
                proof {
                    assert(!child_matches(children, id, q));
                    assert(survivors(children, self.items.order@.subrange(0, i + 1), q)
                        == old_surv);
                }
            }
            i = i + 1;
        }
        proof {
            assert(self.items.order@.subrange(0, self.items.order@.len() as int) =~= self
                .items
                .order@);
        }
        let mut out: Vec<usize> = Vec::new();
        let mut k: usize = 0;
        while k < ranked.len()
            invariant
                k <= ranked@.len(),
                out@ == ids_of(ranked@).subrange(0, k as int),
                forall|j: int| 0 <= j < ranked@.len() ==> (#[trigger] ranked@[j]).1 < children.len(),
                children == self.model().children,
            decreases ranked@.len() - k,
        {
            let p = ranked[k];
            out.push(p.1);
            proof {
                assert(out@ =~= ids_of(ranked@).subrange(0, k + 1));
            }
            k = k + 1;
        }
        proof {
            assert(ids_of(ranked@).subrange(0, ranked@.len() as int) =~= ids_of(ranked@));
            assert forall|j: int| 0 <= j < out@.len() implies (#[trigger] out@[j])
                < self.model().children.len() by {
                assert(out@[j] == ranked@[j].1);
            }
        }
        out
    }
}


/// The sub-sequence of `s` whose elements rank at exactly distance `d`,
/// in `s`'s own order.
pub open spec fn class_of(children: Seq<CommandV>, q: Seq<char>, s: Seq<usize>, d: nat) -> Seq<
    usize,
>
    decreases s.len(),
{
    if s.len() == 0 {
        Seq::empty()
    } else if child_dist(children, s[0], q) == d {
        seq![s[0]] + class_of(children, q, s.drop_first(), d)
    } else {
        class_of(children, q, s.drop_first(), d)
    }
}

/// Splitting a distance class off at the back.
pub proof fn lemma_class_of_snoc(children: Seq<CommandV>, q: Seq<char>, s: Seq<usize>, d: nat)
    requires
        s.len() > 0,
    ensures
        class_of(children, q, s, d) == if child_dist(children, s.last(), q) == d {
            class_of(children, q, s.drop_last(), d).push(s.last())
        } else {
            class_of(children, q, s.drop_last(), d)
        },
    decreases s.len(),
{
    if s.len() == 1 {
        assert(s.drop_first() =~= Seq::<usize>::empty());
        assert(s.drop_last() =~= Seq::<usize>::empty());
        if child_dist(children, s[0], q) == d {
            assert(class_of(children, q, s, d) =~= class_of(
                children,
                q,
                s.drop_last(),
                d,
            ).push(s.last()));
        }
    } else {
        let rest = s.drop_first();
        lemma_class_of_snoc(children, q, rest, d);
        assert(rest.last() == s.last());
        assert(rest.drop_last() =~= s.drop_last().drop_first());
        assert(s.drop_last()[0] == s[0]);
        if child_dist(children, s.last(), q) == d {
            if child_dist(children, s[0], q) == d {
                assert(seq![s[0]] + class_of(children, q, s.drop_last().drop_first(), d).push(
                    s.last(),
                ) =~= (seq![s[0]] + class_of(children, q, s.drop_last().drop_first(), d)).push(
                    s.last(),
                ));
            }
        }
    }
}

/// A sequence ranking entirely above `d` holds no class-`d` element.
pub proof fn lemma_class_of_all_greater(children: Seq<CommandV>, q: Seq<char>, s: Seq<usize>, d: nat)
    requires
        forall|k: int| 0 <= k < s.len() ==> child_dist(children, #[trigger] s[k], q) > d,
    ensures
        class_of(children, q, s, d) == Seq::<usize>::empty(),
    decreases s.len(),
{
    if s.len() > 0 {
        let rest = s.drop_first();
        assert forall|k: int| 0 <= k < rest.len() implies child_dist(
            children,
            #[trigger] rest[k],
            q,
        ) > d by {
            assert(rest[k] == s[k + 1]);
        }
        lemma_class_of_all_greater(children, q, rest, d);
    }
}

/// Inserting into a sorted sequence appends the new element to its own
/// distance class and leaves every other class unchanged.
pub proof fn lemma_insert_by_dist_class(
    children: Seq<CommandV>,
    q: Seq<char>,
    x: usize,
    s: Seq<usize>,
    d: nat,
)
    requires
        sorted_by_dist(children, q, s),
    ensures
        class_of(children, q, insert_by_dist(children, q, x, s), d) == if child_dist(
            children,
            x,
            q,
        ) == d {
            class_of(children, q, s, d).push(x)
        } else {
            class_of(children, q, s, d)
        },
    decreases s.len(),
{
    let r = insert_by_dist(children, q, x, s);
    if s.len() == 0 {
        assert(r == seq![x]);
        assert(r.len() == 1 && r[0] == x);
        assert(r.drop_first() =~= Seq::<usize>::empty());
        assert(class_of(children, q, r.drop_first(), d) == Seq::<usize>::empty());
        assert(class_of(children, q, s, d) == Seq::<usize>::empty());
        if child_dist(children, x, q) == d {
            assert(class_of(children, q, r, d) == seq![r[0]] + class_of(
                children,
                q,
                r.drop_first(),
                d,
            ));
            assert(class_of(children, q, r, d) =~= class_of(children, q, s, d).push(x));
        }
    } else if child_dist(children, s[0], q) <= child_dist(children, x, q) {
        let rest = s.drop_first();
        assert forall|i: int, j: int| 0 <= i <= j < rest.len() implies child_dist(
            children,
            #[trigger] rest[i],
            q,
        ) <= child_dist(children, #[trigger] rest[j], q) by {
            assert(rest[i] == s[i + 1]);
            assert(rest[j] == s[j + 1]);
        }
        lemma_insert_by_dist_class(children, q, x, rest, d);
        let sub = insert_by_dist(children, q, x, rest);
        assert(r == seq![s[0]] + sub);
        assert(r[0] == s[0]);
        assert(r.drop_first() =~= sub);
        if child_dist(children, x, q) == d {
            if child_dist(children, s[0], q) == d {
                assert(seq![s[0]] + class_of(children, q, rest, d).push(x) =~= (seq![s[0]]
                    + class_of(children, q, rest, d)).push(x));
            }
        }
    } else {
        assert(r == seq![x] + s);
        assert(r[0] == x);
        assert(r.drop_first() =~= s);
        if child_dist(children, x, q) == d {
            assert forall|k: int| 0 <= k < s.len() implies child_dist(
                children,
                #[trigger] s[k],
                q,
            ) > d by {
                assert(child_dist(children, s[0], q) <= child_dist(children, s[k], q));
            }
            lemma_class_of_all_greater(children, q, s, d);
            assert(class_of(children, q, r, d) =~= class_of(children, q, s, d).push(x));
        }
    }
}

/// Sorting by distance preserves every distance class as a sequence: the
/// sort only interleaves the classes, never reorders within one.
pub proof fn lemma_sort_by_dist_class(
    children: Seq<CommandV>,
    q: Seq<char>,
    s: Seq<usize>,
    d: nat,
)
    ensures
        class_of(children, q, sort_by_dist(children, q, s), d) == class_of(children, q, s, d),
    decreases s.len(),
{
    if s.len() > 0 {
        let pre = s.drop_last();
        lemma_sort_by_dist_class(children, q, pre, d);
        lemma_sort_by_dist_sorted(children, q, pre);
        lemma_insert_by_dist_class(children, q, s.last(), sort_by_dist(children, q, pre), d);
        lemma_class_of_snoc(children, q, s, d);
    }
}

/// Children at equal edit distance keep their original relative order:
/// for every distance, the filtered view's sub-sequence at that distance
/// is exactly the surviving identifiers' sub-sequence at that distance,
/// in survival order.
pub proof fn lemma_filter_stable(node: Command, q: Seq<char>, d: nat)
    requires
        q.len() > 0,
    ensures
        class_of(node.model().children, q, node.spec_filter(q), d) == class_of(
            node.model().children,
            q,
            survivors(node.model().children, node.model().order, q),
            d,
        ),
{
    lemma_sort_by_dist_class(
        node.model().children,
        q,
        survivors(node.model().children, node.model().order, q),
        d,
    );
}

} // verus!
