//! Cloning the selected option of a select into its `selectedcontent` element.

use crate::dropping::lemma_drop_unheld_finite_depth;
use crate::interface::{contains_attribute, Handle};
use crate::lemmas::{lemma_add_node_wf, lemma_set_children_wf};
use crate::model::{forest_size, tree_size, DomView, NodeView, Tree};
use crate::rcdom::{Node, NodeData, RcDom};
use vstd::prelude::*;

verus! {

/// Where there is no `n`-th ancestor, there is no later one.
pub proof fn lemma_no_later_ancestor(d: DomView, h: Handle, n: nat, m: nat)
    requires
        d.ancestor(h, n) is None,
        n <= m,
    ensures
        d.ancestor(h, m) is None,
    decreases m,
{
    if n < m {
        lemma_no_later_ancestor(d, h, n, (m - 1) as nat);
    }
}

/// A copy is not disturbed by what happens before it and after it.
pub proof fn lemma_copied_at_extends(d: DomView, e: DomView, f: DomView, h: Handle, lo: nat)
    requires
        d.wf(),
        d.finite_depth(),
        d.valid(h),
        d.copied_at(e, h, lo),
        e.nodes.len() <= f.nodes.len(),
        forall|j: int| lo <= j < e.nodes.len() ==> #[trigger] f.nodes[j] == e.nodes[j],
    ensures
        d.copied_at(f, h, lo),
    decreases d.height(h),
{
    reveal(DomView::copied_at);
    let top = lo + tree_size(d.tree(h)) - 1;
    assert(tree_size(d.tree(h)) >= 1);
    assert(f.nodes[top] == e.nodes[top]);
    assert(d.node_wf(d.node(h)));
    assert forall|i: int| 0 <= i < d.children(h).len() implies d.copied_at(
        f,
        #[trigger] d.children(h)[i],
        lo + forest_size(d.forest(d.children(h)).take(i)),
    ) by {
        lemma_copied_at_extends(
            d,
            e,
            f,
            d.children(h)[i],
            lo + forest_size(d.forest(d.children(h)).take(i)),
        );
    }
}

/// The sizes of the trees of an initial segment add up to no more than those of all trees.
pub proof fn lemma_forest_size_take(trees: Seq<Tree>, i: int)
    requires
        0 <= i <= trees.len(),
    ensures
        forest_size(trees.take(i)) <= forest_size(trees),
        i > 0 ==> 1 <= forest_size(trees.take(i)),
    decreases trees.len(),
{
    if i < trees.len() {
        lemma_forest_size_take(trees.drop_last(), i);
        assert(trees.drop_last().take(i) =~= trees.take(i));
    } else {
        assert(trees.take(i) =~= trees);
        if i > 0 {
            assert(tree_size(trees.last()) >= 1);
        }
    }
}

/// One more tree adds its size.
pub proof fn lemma_forest_size_step(trees: Seq<Tree>, i: int)
    requires
        0 <= i < trees.len(),
    ensures
        forest_size(trees.take(i + 1)) == forest_size(trees.take(i)) + tree_size(trees[i]),
{
    assert(trees.take(i + 1).drop_last() =~= trees.take(i));
    assert(trees.take(i + 1).last() == trees[i]);
}

/// Copies that come after copies keep to themselves too.
pub proof fn lemma_copies_from_join(e: DomView, f: DomView, lo: nat)
    requires
        lo <= e.nodes.len(),
        e.copies_from(lo),
        f.extends(e),
        f.copies_from(e.nodes.len()),
    ensures
        f.copies_from(lo),
{
    assert forall|j: int, i: int|
        lo <= j < f.nodes.len() && 0 <= i < f.nodes[j].children.len() implies lo
        <= (#[trigger] f.nodes[j].children[i]).0 < j by {
        if j < e.nodes.len() {
            assert(f.nodes[j] == e.nodes[j]);
            assert(lo <= e.nodes[j].children[i].0 < j);
        }
    }
}

/// The copies of the children of a node lie between the place where the copying began and the
/// place that is next.
pub proof fn lemma_copy_handles_range(d: DomView, h: Handle, lo: nat)
    requires
        lo + forest_size(d.forest(d.children(h))) <= usize::MAX,
    ensures
        forall|i: int|
            0 <= i < d.children(h).len() ==> lo <= (#[trigger] d.copy_handles(
                d.children(h),
                lo,
            )[i]).0 < lo + forest_size(d.forest(d.children(h))),
{
    assert forall|i: int| 0 <= i < d.children(h).len() implies lo <= (#[trigger] d.copy_handles(
        d.children(h),
        lo,
    )[i]).0 < lo + forest_size(d.forest(d.children(h))) by {
        lemma_forest_size_take(d.forest(d.children(h)), i + 1);
    }
}

/// Adding copies leaves no node its own descendant.
pub proof fn lemma_copies_finite_depth(d: DomView, e: DomView)
    requires
        d.wf(),
        d.finite_depth(),
        e.extends(d),
        e.copies_from(d.nodes.len()),
    ensures
        e.finite_depth(),
{
    let rank = choose|rank: spec_fn(Handle) -> nat| d.ranked(rank);
    let extended = |h: Handle| if h.0 < d.nodes.len() { rank(h) } else { h.0 as nat };
    assert forall|p: Handle, i: int|
        e.valid(p) && 0 <= i < e.children(p).len() implies extended(#[trigger] e.children(p)[i])
        < extended(p) by {
        if d.valid(p) {
            assert(e.node(p) == d.node(p));
            assert(d.node_wf(d.node(p)));
            assert(rank(d.children(p)[i]) < rank(p));
        } else {
            assert(d.nodes.len() <= e.nodes[p.0 as int].children[i].0 < p.0);
        }
    }
    assert(e.ranked(extended));
}

/// A node of the document may take copies as its children: no node becomes its own descendant.
pub proof fn lemma_copies_adopted_finite_depth(
    d: DomView,
    e: DomView,
    h: Handle,
    children: Seq<Handle>,
)
    requires
        d.wf(),
        d.finite_depth(),
        e.extends(d),
        e.copies_from(d.nodes.len()),
        d.valid(h),
        forall|i: int|
            0 <= i < children.len() ==> d.nodes.len() <= (#[trigger] children[i]).0
                < e.nodes.len(),
    ensures
        e.set_children(h, children).finite_depth(),
{
    let f = e.set_children(h, children);
    let rank = choose|rank: spec_fn(Handle) -> nat| d.ranked(rank);
    let extended = |x: Handle|
        if x.0 < d.nodes.len() { rank(x) + e.nodes.len() } else { x.0 as nat };
    assert forall|p: Handle, i: int|
        f.valid(p) && 0 <= i < f.children(p).len() implies extended(#[trigger] f.children(p)[i])
        < extended(p) by {
        if p == h {
            assert(f.children(p)[i] == children[i]);
        } else if d.valid(p) {
            assert(f.node(p) == d.node(p));
            assert(d.node_wf(d.node(p)));
            assert(rank(d.children(p)[i]) < rank(p));
        } else {
            assert(f.node(p) == e.node(p));
            assert(d.nodes.len() <= e.nodes[p.0 as int].children[i].0 < p.0);
        }
    }
    assert(f.ranked(extended));
}

/// What hangs under the copy of a node is what hangs under the node.
pub proof fn lemma_copy_tree(d: DomView, e: DomView, h: Handle, lo: nat)
    requires
        d.wf(),
        d.finite_depth(),
        d.valid(h),
        e.wf(),
        e.finite_depth(),
        d.copied_at(e, h, lo),
    ensures
        e.tree(Handle((lo + tree_size(d.tree(h)) - 1) as usize)) == d.tree(h),
    decreases d.height(h),
{
    reveal(DomView::copied_at);
    let top = Handle((lo + tree_size(d.tree(h)) - 1) as usize);
    let hs = d.children(h);
    assert(d.node_wf(d.node(h)));
    assert(tree_size(d.tree(h)) >= 1);
    assert(e.valid(top));
    assert forall|i: int| 0 <= i < hs.len() implies #[trigger] e.tree(top).children[i]
        == d.tree(h).children[i] by {
        let lo_i = lo + forest_size(d.forest(hs).take(i));
        lemma_copy_tree(d, e, hs[i], lo_i);
        lemma_forest_size_step(d.forest(hs), i);
        assert(e.children(top)[i] == d.copy_handles(hs, lo)[i]);
    }
    assert(e.tree(top).children =~= d.tree(h).children);
}

/// An ancestor of a node of the document is a node of the document.
pub proof fn lemma_ancestor_valid(d: DomView, h: Handle, n: nat)
    requires
        d.wf(),
        d.valid(h),
    ensures
        d.ancestor(h, n) matches Some(a) ==> d.valid(a),
    decreases n,
{
    if n > 0 {
        lemma_ancestor_valid(d, h, (n - 1) as nat);
        if let Some(a) = d.ancestor(h, (n - 1) as nat) {
            assert(d.node_wf(d.node(a)));
        }
    }
}

/// A select has no enabled `selectedcontent`.
pub proof fn lemma_select_has_no_selectedcontent(d: DomView, select: Handle)
    requires
        d.is_named(select, "select"@),
    ensures
        d.enabled_selectedcontent(select) is None,
{
    reveal_strlit("select");
    reveal_strlit("selectedcontent");
    assert("select"@.len() != "selectedcontent"@.len());
}

/// The copy of a node completes the copies of what hangs under its children.
proof fn lemma_copy_completed(
    d: DomView,
    before: DomView,
    middle: DomView,
    h: Handle,
    node: NodeView,
)
    requires
        d.wf(),
        d.finite_depth(),
        d.valid(h),
        before.extends(d),
        middle.wf(),
        middle.extends(before),
        middle.nodes.len() == before.nodes.len() + forest_size(d.forest(d.children(h))),
        middle.nodes.len() < usize::MAX,
        middle.copies_from(before.nodes.len()),
        forall|i: int|
            0 <= i < d.children(h).len() ==> d.copied_at(
                middle,
                #[trigger] d.children(h)[i],
                before.nodes.len() + forest_size(d.forest(d.children(h)).take(i)),
            ),
        node == (NodeView {
            parent: d.parent(h),
            children: d.copy_handles(d.children(h), before.nodes.len()),
            data: d.data(h),
            dropped: false,
        }),
    ensures
        middle.add_node(node).wf(),
        middle.add_node(node).extends(before),
        middle.add_node(node).nodes.len() == before.nodes.len() + tree_size(d.tree(h)),
        middle.add_node(node).copies_from(before.nodes.len()),
        d.copied_at(middle.add_node(node), h, before.nodes.len()),
{
    let lo = before.nodes.len();
    let hs = d.children(h);
    let e = middle.add_node(node);
    assert(d.tree(h).children =~= d.forest(hs));
    lemma_copy_handles_range(d, h, lo);
    assert(d.node_wf(d.node(h)));
    assert(middle.node_wf(node)) by {
        assert forall|i: int| 0 <= i < node.children.len() implies middle.valid(
            #[trigger] node.children[i],
        ) by {
            assert(node.children[i] == d.copy_handles(hs, lo)[i]);
        }
    }
    lemma_add_node_wf(middle, node);
    assert forall|i: int| 0 <= i < hs.len() implies d.copied_at(
        e,
        #[trigger] hs[i],
        lo + forest_size(d.forest(hs).take(i)),
    ) by {
        lemma_copied_at_extends(d, middle, e, hs[i], lo + forest_size(d.forest(hs).take(i)));
    }
    assert(d.copied_at(e, h, lo)) by {
        reveal(DomView::copied_at);
    }
    assert forall|j: int, i: int|
        lo <= j < e.nodes.len() && 0 <= i < e.nodes[j].children.len() implies lo
        <= (#[trigger] e.nodes[j].children[i]).0 < j by {
        if j < middle.nodes.len() {
            assert(lo <= middle.nodes[j].children[i].0 < j);
        } else {
            assert(e.nodes[j].children[i] == d.copy_handles(hs, lo)[i]);
        }
    }
}

/// The copy of one more child joins the copies of the children before it.
#[verifier::spinoff_prover]
proof fn lemma_copied_next(
    d: DomView,
    before: DomView,
    now: DomView,
    after: DomView,
    h: Handle,
    i: int,
)
    requires
        d.wf(),
        d.finite_depth(),
        d.valid(h),
        0 <= i < d.children(h).len(),
        before.extends(d),
        now.extends(before),
        now.nodes.len() == before.nodes.len() + forest_size(d.forest(d.children(h)).take(i)),
        now.copies_from(before.nodes.len()),
        forall|k: int|
            0 <= k < i ==> d.copied_at(
                now,
                #[trigger] d.children(h)[k],
                before.nodes.len() + forest_size(d.forest(d.children(h)).take(k)),
            ),
        after.nodes.len() <= usize::MAX,
        after.extends(now),
        after.nodes.len() == now.nodes.len() + tree_size(d.tree(d.children(h)[i])),
        after.copies_from(now.nodes.len()),
        d.copied_at(after, d.children(h)[i], now.nodes.len()),
    ensures
        after.extends(before),
        after.nodes.len() == before.nodes.len() + forest_size(d.forest(d.children(h)).take(i + 1)),
        after.copies_from(before.nodes.len()),
        d.copy_handles(d.children(h), before.nodes.len())[i].0 == after.nodes.len() - 1,
        forall|k: int|
            0 <= k < i + 1 ==> d.copied_at(
                after,
                #[trigger] d.children(h)[k],
                before.nodes.len() + forest_size(d.forest(d.children(h)).take(k)),
            ),
{
    let hs = d.children(h);
    let lo = before.nodes.len();
    assert(after.extends(before)) by {
        assert forall|j: int| 0 <= j < before.nodes.len() implies #[trigger] after.nodes[j]
            == before.nodes[j] by {
            assert(now.nodes[j] == before.nodes[j]);
        }
    }
    lemma_forest_size_step(d.forest(hs), i);
    assert(after.copies_from(lo)) by {
        lemma_copies_from_join(now, after, lo);
    }
    assert(d.node_wf(d.node(h)));
    assert forall|k: int| 0 <= k < i + 1 implies d.copied_at(
        after,
        #[trigger] hs[k],
        lo + forest_size(d.forest(hs).take(k)),
    ) by {
        if k < i {
            lemma_copied_at_extends(d, now, after, hs[k], lo + forest_size(d.forest(hs).take(k)));
        }
    }
}

/// Copies that become children of a node complete the cloning of an option.
proof fn lemma_option_cloned(
    d: DomView,
    middle: DomView,
    option: Handle,
    selectedcontent: Handle,
    fragment: Seq<Handle>,
)
    requires
        d.wf(),
        d.finite_depth(),
        d.valid(option),
        d.valid(selectedcontent),
        middle.wf(),
        middle.extends(d),
        middle.nodes.len() == d.nodes.len() + forest_size(d.forest(d.children(option))),
        middle.copies_from(d.nodes.len()),
        fragment == d.copy_handles(d.children(option), d.nodes.len()),
        forall|i: int|
            0 <= i < d.children(option).len() ==> d.copied_at(
                middle,
                #[trigger] d.children(option)[i],
                d.nodes.len() + forest_size(d.forest(d.children(option)).take(i)),
            ),
    ensures
        middle.set_children(selectedcontent, fragment).wf(),
        middle.set_children(selectedcontent, fragment).finite_depth(),
        d.option_cloned(
            middle.set_children(selectedcontent, fragment),
            option,
            selectedcontent,
        ),
{
    let hs = d.children(option);
    let lo = d.nodes.len();
    let e = middle.set_children(selectedcontent, fragment);
    lemma_copy_handles_range(d, option, lo);
    assert forall|i: int| 0 <= i < fragment.len() implies lo <= (#[trigger] fragment[i]).0
        < middle.nodes.len() by {
        assert(fragment[i] == d.copy_handles(hs, lo)[i]);
    }
    lemma_set_children_wf(middle, selectedcontent, fragment);
    lemma_copies_adopted_finite_depth(d, middle, selectedcontent, fragment);
    assert(d.node_wf(d.node(option)));
    assert forall|i: int| 0 <= i < hs.len() implies d.copied_at(
        e,
        #[trigger] hs[i],
        lo + forest_size(d.forest(hs).take(i)),
    ) by {
        lemma_copied_at_extends(d, middle, e, hs[i], lo + forest_size(d.forest(hs).take(i)));
    }
    assert(middle.node(selectedcontent) == d.node(selectedcontent));
    assert forall|h: Handle| d.valid(h) && h != selectedcontent implies #[trigger] e.node(h)
        == d.node(h) by {
        assert(middle.nodes[h.0 as int] == d.nodes[h.0 as int]);
    }
}

/// Every place that a copy takes lies in the copy of one of the trees.
proof fn lemma_place_in_forest(trees: Seq<Tree>, j: int) -> (i: int)
    requires
        0 <= j < forest_size(trees),
    ensures
        0 <= i < trees.len(),
        forest_size(trees.take(i)) <= j < forest_size(trees.take(i)) + tree_size(trees[i]),
    decreases trees.len(),
{
    let before = trees.drop_last();
    if j < forest_size(before) {
        let i = lemma_place_in_forest(before, j);
        assert(before.take(i) =~= trees.take(i));
        i
    } else {
        assert(trees.take(trees.len() - 1) =~= before);
        trees.len() - 1
    }
}

/// Copies of the same node at the same place are the same.
proof fn lemma_one_copy(d: DomView, e: DomView, f: DomView, h: Handle, lo: nat, j: int)
    requires
        d.wf(),
        d.finite_depth(),
        d.valid(h),
        d.copied_at(e, h, lo),
        d.copied_at(f, h, lo),
        lo <= j < lo + tree_size(d.tree(h)),
    ensures
        e.nodes[j] == f.nodes[j],
    decreases d.height(h),
{
    reveal(DomView::copied_at);
    let hs = d.children(h);
    assert(d.tree(h).children =~= d.forest(hs));
    if j < lo + tree_size(d.tree(h)) - 1 {
        assert(d.node_wf(d.node(h)));
        let i = lemma_place_in_forest(d.forest(hs), j - lo);
        assert(d.valid(hs[i]));
        lemma_one_copy(d, e, f, hs[i], lo + forest_size(d.forest(hs).take(i)), j);
    }
}

/// There is one way to clone an option: the document that results is fixed.
pub proof fn law_option_is_cloned_in_one_way(
    d: DomView,
    e: DomView,
    f: DomView,
    option: Handle,
    selectedcontent: Handle,
)
    requires
        d.wf(),
        d.finite_depth(),
        d.valid(option),
        d.valid(selectedcontent),
        d.option_cloned(e, option, selectedcontent),
        d.option_cloned(f, option, selectedcontent),
    ensures
        e == f,
{
    let lo = d.nodes.len();
    let hs = d.children(option);
    assert(d.node_wf(d.node(option)));
    assert forall|j: int| 0 <= j < e.nodes.len() implies e.nodes[j] == f.nodes[j] by {
        if j < lo {
            let h = Handle(j as usize);
            assert(d.valid(h));
            if h != selectedcontent {
                assert(e.node(h) == d.node(h) && f.node(h) == d.node(h));
            }
        } else {
            let i = lemma_place_in_forest(d.forest(hs), j - lo);
            assert(d.valid(hs[i]));
            assert(d.copied_at(e, hs[i], lo + forest_size(d.forest(hs).take(i))));
            lemma_one_copy(d, e, f, hs[i], lo + forest_size(d.forest(hs).take(i)), j);
        }
    }
    assert(e.nodes =~= f.nodes);
}

impl RcDom {
    /// Whether `h` is an element with the local name `local`.
    pub fn is_element_named(&self, h: Handle, local: &str) -> (r: bool)
        requires
            self@.valid(h),
        ensures
            r == self@.is_named(h, local@),
    {
        match &self.nodes[h.0].data {
            NodeData::Element { name, .. } => name.local == local.to_owned(),
            _ => false,
        }
    }

    /// The nearest ancestor select of an option.
    pub fn get_option_element_nearest_ancestor_select(&self, option: Handle) -> (r: Option<Handle>)
        requires
            self@.wf(),
            self@.valid(option),
            exists|n: nat| self@.settled_at(option, n),
        ensures
            match r {
                Some(select) => exists|n: nat|
                    self@.nearest_select_at(option, n) && #[trigger] self@.ancestor(option, n)
                        == Some(select),
                None => forall|n: nat| !self@.nearest_select_at(option, n),
            },
    {
        let ghost d = self@;
        let ghost end = choose|n: nat| self@.settled_at(option, n);
        let mut did_see_ancestor_optgroup = false;
        let ghost mut n: nat = 1;
        assert(d.ancestor(option, 0) == Some(option));
        assert(d.node_wf(d.node(option)));
        let mut current = match self.live_parent(option) {
            Some(parent) => parent,
            None => {
                assert forall|m: nat| !d.nearest_select_at(option, m) by {
                    if m >= 1 {
                        lemma_no_later_ancestor(d, option, 1, m);
                    }
                }
                return None;
            },
        };
        loop
            invariant
                d == self@,
                d.wf(),
                d.valid(option),
                d.valid(current),
                d.settled_at(option, end),
                1 <= n <= end,
                d.ancestor(option, n) == Some(current),
                forall|j: nat|
                    1 <= j < n ==> !(#[trigger] d.ancestor_shields(option, j)) && !d.ancestor_named(
                        option,
                        j,
                        "select"@,
                    ),
                forall|i: nat, j: nat|
                    1 <= i < j < n ==> !(#[trigger] d.ancestor_named(option, i, "optgroup"@)
                        && #[trigger] d.ancestor_named(option, j, "optgroup"@)),
                did_see_ancestor_optgroup == exists|i: nat|
                    1 <= i < n && #[trigger] d.ancestor_named(option, i, "optgroup"@),
            decreases end - n,
        {
            proof {
                reveal_strlit("datalist");
                reveal_strlit("hr");
                reveal_strlit("option");
                reveal_strlit("optgroup");
                reveal_strlit("select");
                assert("datalist"@[0] != "select"@[0]);
                assert("hr"@[0] != "select"@[0]);
                assert("option"@[0] != "select"@[0]);
                assert("optgroup"@[0] != "select"@[0]);
                assert(d.node_wf(d.node(current)));
            }
            if self.is_element_named(current, "datalist") || self.is_element_named(current, "hr")
                || self.is_element_named(current, "option") {
                assert(d.ancestor_shields(option, n));
                assert forall|m: nat| !d.nearest_select_at(option, m) by {
                    if m < n {
                        assert(m == 0 || !d.ancestor_shields(option, m));
                    }
                }
                return None;
            }
            if self.is_element_named(current, "optgroup") {
                assert(d.ancestor_named(option, n, "optgroup"@));
                if did_see_ancestor_optgroup {
                    let ghost first = choose|i: nat|
                        1 <= i < n && #[trigger] d.ancestor_named(option, i, "optgroup"@);
                    assert forall|m: nat| !d.nearest_select_at(option, m) by {
                        if m < n {
                            assert(m == 0 || !d.ancestor_shields(option, m));
                        } else if m > n {
                            assert(d.ancestor_named(option, first, "optgroup"@)
                                && d.ancestor_named(option, n, "optgroup"@));
                        }
                    }
                    return None;
                }
                did_see_ancestor_optgroup = true;
            }
            if self.is_element_named(current, "select") {
                assert(d.nearest_select_at(option, n));
                return Some(current);
            }
            assert(!d.ancestor_shields(option, n));
            match self.live_parent(current) {
                Some(next_ancestor) => {
                    assert(d.ancestor(option, n + 1) == Some(next_ancestor));
                    assert(n != end);
                    current = next_ancestor;
                    proof {
                        n = n + 1;
                    }
                },
                None => {
                    assert(d.ancestor(option, n + 1) is None);
                    assert forall|m: nat| !d.nearest_select_at(option, m) by {
                        if m < n {
                            assert(m == 0 || !d.ancestor_shields(option, m));
                        } else if m > n {
                            lemma_no_later_ancestor(d, option, n + 1, m);
                        }
                    }
                    return None;
                },
            }
        }
    }

    /// The enabled `selectedcontent` of the element `select`.
    pub fn get_a_selects_enabled_selectedcontent(&self, select: Handle) -> (r: Option<Handle>)
        requires
            self@.wf(),
            self@.valid(select),
            self@.is_element(select),
        ensures
            r == self@.enabled_selectedcontent(select),
            r matches Some(h) ==> self@.valid(h),
    {
        assert(self@.node_wf(self@.node(select)));
        match &self.nodes[select.0].data {
            NodeData::Element { attrs, .. } => {
                if contains_attribute(attrs, "multiple") {
                    return None;
                }
            },
            _ => {},
        }
        if self.is_element_named(select, "selectedcontent") && self.nodes[select.0].children.len()
            > 0 {
            let first = self.nodes[select.0].children[0];
            assert(first == self@.children(select)[0]);
            Some(first)
        } else {
            None
        }
    }

    /// Copies what hangs under the children of `h`; gives the copies of the children.
    #[verifier::spinoff_prover]
    fn clone_children(&mut self, h: Handle, Ghost(d): Ghost<DomView>) -> (r: Vec<Handle>)
        requires
            d.wf(),
            d.finite_depth(),
            d.valid(h),
            old(self)@.wf(),
            old(self)@.extends(d),
        ensures
            final(self)@.wf(),
            final(self)@.extends(old(self)@),
            final(self)@.nodes.len() == old(self)@.nodes.len() + forest_size(
                d.forest(d.children(h)),
            ),
            final(self)@.copies_from(old(self)@.nodes.len()),
            r@ == d.copy_handles(d.children(h), old(self)@.nodes.len()),
            forall|i: int|
                0 <= i < d.children(h).len() ==> d.copied_at(
                    final(self)@,
                    #[trigger] d.children(h)[i],
                    old(self)@.nodes.len() + forest_size(d.forest(d.children(h)).take(i)),
                ),
        decreases d.height(h), 0nat,
    {
        let ghost before = self@;
        let ghost lo = self@.nodes.len();
        let ghost hs = d.children(h);
        let ghost trees = d.forest(hs);
        let mut copies: Vec<Handle> = Vec::new();
        assert(self@.node(h) == d.node(h));
        let count = self.nodes[h.0].children.len();
        for i in 0..count
            invariant
                count == hs.len(),
                d.wf(),
                d.finite_depth(),
                d.valid(h),
                hs == d.children(h),
                trees == d.forest(hs),
                lo == before.nodes.len(),
                before.extends(d),
                self@.wf(),
                self@.extends(before),
                self@.nodes.len() == lo + forest_size(trees.take(i as int)),
                self@.copies_from(lo),
                copies@ == d.copy_handles(hs, lo).take(i as int),
                forall|k: int|
                    0 <= k < i ==> d.copied_at(
                        self@,
                        #[trigger] hs[k],
                        lo + forest_size(trees.take(k)),
                    ),
        {
            let ghost now = self@;
            assert(d.node_wf(d.node(h)));
            assert(now.node(h) == d.node(h));
            let child = self.nodes[h.0].children[i];
            assert(child == hs[i as int]);
            let copy = self.clone_node(child, Ghost(d));
            copies.push(copy);
            proof {
                lemma_copied_next(d, before, now, self@, h, i as int);
                assert(copies@ =~= d.copy_handles(hs, lo).take(i + 1));
            }
        }
        assert(trees.take(count as int) =~= trees);
        assert(copies@ =~= d.copy_handles(hs, lo));
        copies
    }

    /// Copies what hangs under `h`.
    fn clone_node(&mut self, h: Handle, Ghost(d): Ghost<DomView>) -> (r: Handle)
        requires
            d.wf(),
            d.finite_depth(),
            d.valid(h),
            old(self)@.wf(),
            old(self)@.extends(d),
        ensures
            final(self)@.wf(),
            final(self)@.extends(old(self)@),
            final(self)@.nodes.len() == old(self)@.nodes.len() + tree_size(d.tree(h)),
            final(self)@.copies_from(old(self)@.nodes.len()),
            r.0 == final(self)@.nodes.len() - 1,
            d.copied_at(final(self)@, h, old(self)@.nodes.len()),
        decreases d.height(h), 1nat,
    {
        let ghost before = self@;
        let ghost lo = self@.nodes.len();
        let children = self.clone_children(h, Ghost(d));
        let ghost middle = self@;
        assert(middle.node(h) == d.node(h));
        let node = Node {
            parent: self.nodes[h.0].parent,
            children,
            data: self.nodes[h.0].data.clone(),
            dropped: false,
        };
        assert(self.nodes.len() <= usize::MAX);
        let r = Handle(self.nodes.len());
        self.nodes.push(node);
        assert(self.nodes.len() <= usize::MAX);
        assert(self@.nodes =~= middle.nodes.push(node@));
        proof {
            lemma_copy_completed(d, before, middle, h, node@);
            assert(self@ == middle.add_node(node@));
        }
        r
    }

    /// Copies what hangs under `h`; gives the copy of `h`. The copy of a node keeps that node's
    /// parent.
    pub fn clone_with_subtree(&mut self, h: Handle) -> (r: Handle)
        requires
            old(self)@.wf(),
            old(self)@.valid(h),
            old(self)@.finite_depth(),
        ensures
            final(self)@.wf(),
            final(self)@.finite_depth(),
            final(self)@.extends(old(self)@),
            final(self)@.nodes.len() == old(self)@.nodes.len() + tree_size(old(self)@.tree(h)),
            old(self)@.copied_at(final(self)@, h, old(self)@.nodes.len()),
            r.0 == final(self)@.nodes.len() - 1,
            final(self)@.tree(r) == old(self)@.tree(h),
    {
        let ghost d = self@;
        let r = self.clone_node(h, Ghost(d));
        proof {
            lemma_copies_finite_depth(d, self@);
            lemma_copy_tree(d, self@, h, d.nodes.len());
        }
        r
    }

    /// Gives `h` other children; gives those that it had.
    fn replace_children(&mut self, h: Handle, children: Vec<Handle>) -> (r: Vec<Handle>)
        requires
            old(self)@.valid(h),
        ensures
            final(self)@ == old(self)@.set_children(h, children@),
            r@ == old(self)@.children(h),
    {
        let mut replaced = children;
        std::mem::swap(&mut replaced, &mut self.nodes[h.0].children);
        assert(self@ =~= old(self)@.set_children(h, children@));
        replaced
    }

    /// Makes copies of what hangs under the children of `option` the children of
    /// `selectedcontent`, and gives up the handles of those that it had; `held` are the nodes of
    /// which there are handles outside of the document.
    pub fn clone_an_option_into_selectedcontent(
        &mut self,
        option: Handle,
        selectedcontent: Handle,
        held: &Vec<Handle>,
    )
        requires
            old(self)@.wf(),
            old(self)@.valid(option),
            old(self)@.valid(selectedcontent),
            old(self)@.finite_depth(),
        ensures
            final(self)@.wf(),
            final(self)@.finite_depth(),
            exists|copied: DomView| #[trigger]
                old(self)@.option_cloned(copied, option, selectedcontent) && final(self)@
                    == copied.drop_unheld(old(self)@.children(selectedcontent), held@),
    {
        let ghost d = self@;
        let document_fragment = self.clone_children(option, Ghost(d));
        let ghost middle = self@;
        assert(middle.node(selectedcontent) == d.node(selectedcontent));
        assert(d.node_wf(d.node(selectedcontent)));
        let replaced = self.replace_children(selectedcontent, document_fragment);
        proof {
            lemma_option_cloned(d, middle, option, selectedcontent, document_fragment@);
        }
        let ghost copied = self@;
        self.drop_unheld(&replaced, held);
        proof {
            lemma_drop_unheld_finite_depth(copied, replaced@, held@);
            assert(d.option_cloned(copied, option, selectedcontent));
        }
    }

    /// Clones `option`, if it is selected, into the enabled `selectedcontent` of its select.
    ///
    /// No select has an enabled `selectedcontent`, so the document stays as it is.
    pub fn maybe_clone_an_option_into_selectedcontent(&mut self, option: Handle)
        requires
            old(self)@.wf(),
            old(self)@.valid(option),
            old(self)@.is_element(option),
            exists|n: nat| old(self)@.settled_at(option, n),
        ensures
            final(self)@ == old(self)@,
    {
        if let Some(select) = self.get_option_element_nearest_ancestor_select(option) {
            let ghost n = choose|n: nat|
                self@.nearest_select_at(option, n) && #[trigger] self@.ancestor(option, n) == Some(
                    select,
                );
            proof {
                lemma_ancestor_valid(self@, option, n);
                lemma_select_has_no_selectedcontent(self@, select);
            }
            if let Some(selectedcontent) = self.get_a_selects_enabled_selectedcontent(select) {
                let selected = match &self.nodes[option.0].data {
                    NodeData::Element { attrs, .. } => contains_attribute(attrs, "selected"),
                    _ => false,
                };
                if selected {
                    let mut held: Vec<Handle> = Vec::new();
                    held.push(option);
                    held.push(select);
                    held.push(selectedcontent);
                    self.clone_an_option_into_selectedcontent(option, selectedcontent, &held);
                }
            }
        }
    }
}

} // verus!
