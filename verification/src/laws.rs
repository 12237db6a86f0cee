//! Laws of tree construction: what every step keeps, and what undoes what.

use crate::interface::{has_qualified_attribute, AttributeView, Handle, NodeOrText};
use crate::lemmas::{
    lemma_add_node_finite_depth, lemma_add_node_linked, lemma_add_node_wf,
    lemma_attach_at_finite_depth, lemma_attach_at_linked, lemma_attach_is_attach_at,
    lemma_detach_finite_depth, lemma_detach_linked, lemma_detach_wf,
    lemma_leaf_reaches, lemma_position, lemma_reparent_children_finite_depth,
    lemma_reparent_children_linked, lemma_set_data_finite_depth, lemma_set_data_linked,
};
use crate::model::{detached, missing_attributes, DataView, DomView};
use vstd::prelude::*;
use vstd::set_lib::{lemma_int_range, lemma_len_subset, set_int_range};

verus! {

// ---- a tree stays a tree ----

/// Creating a node keeps a tree a tree.
pub proof fn law_create_keeps_tree(d: DomView, data: DataView)
    requires
        d.wf(),
        d.is_tree(),
    ensures
        d.add_node(detached(data)).is_tree(),
{
    lemma_add_node_linked(d, data);
    lemma_add_node_finite_depth(d, data);
}

/// Inserting a node that is in no tree, and not above the place where it goes, keeps a tree a
/// tree.
pub proof fn law_insert_keeps_tree(d: DomView, parent: Handle, i: int, node: Handle)
    requires
        d.wf(),
        d.is_tree(),
        d.valid(parent),
        d.valid(node),
        d.parent(node) is None,
        !d.reaches(node, parent),
        0 <= i <= d.children(parent).len(),
    ensures
        d.attach_at(parent, i, node).is_tree(),
{
    lemma_attach_at_linked(d, parent, i, node);
    lemma_attach_at_finite_depth(d, parent, i, node);
}

/// Inserting a new node anywhere keeps a tree a tree.
pub proof fn law_insert_new_keeps_tree(d: DomView, parent: Handle, i: int, data: DataView)
    requires
        d.wf(),
        d.is_tree(),
        d.valid(parent),
        d.node_wf(detached(data)),
        d.nodes.len() < usize::MAX,
        0 <= i <= d.children(parent).len(),
    ensures
        d.add_node(detached(data)).attach_at(parent, i, d.next_handle()).is_tree(),
{
    let e = d.add_node(detached(data));
    let h = d.next_handle();
    law_create_keeps_tree(d, data);
    lemma_add_node_wf(d, detached(data));
    assert(e.node(h) == detached(data));
    if e.reaches(h, parent) {
        lemma_leaf_reaches(e, h, parent);
    }
    law_insert_keeps_tree(e, parent, i, h);
}

/// Appending a new node anywhere keeps a tree a tree; so does appending a doctype to the document.
pub proof fn law_append_new_keeps_tree(d: DomView, parent: Handle, data: DataView)
    requires
        d.wf(),
        d.is_tree(),
        d.valid(parent),
        d.node_wf(detached(data)),
        d.nodes.len() < usize::MAX,
    ensures
        d.add_node(detached(data)).attach(parent, d.next_handle()).is_tree(),
{
    lemma_attach_is_attach_at(d.add_node(detached(data)), parent, d.next_handle());
    law_insert_new_keeps_tree(d, parent, d.children(parent).len() as int, data);
}

/// Appending keeps a tree a tree, if a node that is appended is not above its new parent.
pub proof fn law_append_keeps_tree(d: DomView, parent: Handle, child: NodeOrText)
    requires
        d.wf(),
        d.is_tree(),
        d.valid(parent),
        match child {
            NodeOrText::AppendNode(node) => {
                &&& d.valid(node)
                &&& d.parent(node) is None
                &&& !d.reaches(node, parent)
            },
            NodeOrText::AppendText(_) => d.nodes.len() < usize::MAX,
        },
    ensures
        d.append(parent, child).is_tree(),
{
    let last = d.children(parent).len() as int;
    assert(d.node_wf(d.node(parent)));
    match child {
        NodeOrText::AppendNode(node) => {
            lemma_attach_is_attach_at(d, parent, node);
            law_insert_keeps_tree(d, parent, last, node);
        },
        NodeOrText::AppendText(text) => {
            if d.ends_in_text(parent) {
                law_append_text_keeps_tree(d, d.children(parent).last(), text@);
            } else {
                law_append_new_keeps_tree(d, parent, DataView::Text { contents: text@ });
            }
        },
    }
}

/// Adding to a text keeps a tree a tree.
pub proof fn law_append_text_keeps_tree(d: DomView, h: Handle, text: Seq<char>)
    requires
        d.wf(),
        d.is_tree(),
        d.valid(h),
    ensures
        d.append_text(h, text).is_tree(),
{
    let data = DataView::Text { contents: d.data(h)->Text_contents + text };
    lemma_set_data_linked(d, h, data);
    lemma_set_data_finite_depth(d, h, data);
}

/// Putting something before a sibling keeps a tree a tree, if a node that is put there is not
/// above its new parent.
pub proof fn law_append_before_sibling_keeps_tree(d: DomView, sibling: Handle, child: NodeOrText)
    requires
        d.wf(),
        d.is_tree(),
        d.valid(sibling),
        d.parent(sibling) is Some,
        d.locatable(sibling),
        match child {
            NodeOrText::AppendNode(node) => {
                &&& d.valid(node)
                &&& d.locatable(node)
                &&& !d.reaches(node, d.parent(sibling)->0)
            },
            NodeOrText::AppendText(_) => d.nodes.len() < usize::MAX,
        },
    ensures
        d.append_before_sibling(sibling, child).is_tree(),
{
    let parent = d.parent(sibling)->0;
    assert(d.node_wf(d.node(sibling)));
    assert(d.node_wf(d.node(parent)));
    lemma_position(d, parent, sibling);
    let i = d.position(parent, sibling);
    match child {
        NodeOrText::AppendNode(node) => {
            let e = d.detach(node);
            lemma_detach_wf(d, node);
            law_remove_keeps_tree(d, node);
            lemma_detach_finite_depth(d, node);
            if let Some(p) = d.parent(node) {
                lemma_position(d, p, node);
            }
            assert(i <= e.children(parent).len());
            law_insert_keeps_tree(e, parent, i, node);
        },
        NodeOrText::AppendText(text) => {
            if i > 0 && d.is_text(d.children(parent)[i - 1]) {
                law_append_text_keeps_tree(d, d.children(parent)[i - 1], text@);
            } else {
                law_insert_new_keeps_tree(d, parent, i, DataView::Text { contents: text@ });
            }
        },
    }
}

/// Removing a node keeps a tree a tree.
pub proof fn law_remove_keeps_tree(d: DomView, h: Handle)
    requires
        d.wf(),
        d.is_tree(),
        d.valid(h),
        d.locatable(h),
    ensures
        d.detach(h).is_tree(),
{
    lemma_detach_linked(d, h);
    lemma_detach_finite_depth(d, h);
}

/// Moving the children of a node keeps a tree a tree, if none of them is above its new parent.
pub proof fn law_reparent_children_keeps_tree(d: DomView, node: Handle, new_parent: Handle)
    requires
        d.wf(),
        d.is_tree(),
        d.valid(node),
        d.valid(new_parent),
        node != new_parent,
        forall|i: int|
            0 <= i < d.children(node).len() ==> !d.reaches(
                #[trigger] d.children(node)[i],
                new_parent,
            ),
    ensures
        d.reparent_children(node, new_parent).is_tree(),
{
    lemma_reparent_children_linked(d, node, new_parent);
    lemma_reparent_children_finite_depth(d, node, new_parent);
}

/// Adding attributes keeps a tree a tree.
pub proof fn law_add_attrs_keeps_tree(d: DomView, h: Handle, attrs: Seq<AttributeView>)
    requires
        d.wf(),
        d.is_tree(),
        d.valid(h),
    ensures
        d.add_attrs_if_missing(h, attrs).is_tree(),
{
    let data = d.add_attrs_if_missing(h, attrs).data(h);
    lemma_set_data_linked(d, h, data);
    lemma_set_data_finite_depth(d, h, data);
}

// ---- what undoes what ----

/// Removing a node undoes its insertion.
pub proof fn law_remove_undoes_insert(d: DomView, parent: Handle, i: int, node: Handle)
    requires
        d.valid(parent),
        d.valid(node),
        d.parent(node) is None,
        !d.children(parent).contains(node),
        0 <= i <= d.children(parent).len(),
    ensures
        d.attach_at(parent, i, node).detach(node) == d,
{
    let e = d.attach_at(parent, i, node);
    let s = d.children(parent);
    let t = s.insert(i, node);
    assert(e.children(parent) =~= t);
    assert(t[i] == node);
    assert(e.parent(node) == Some(parent));
    assert(e.children(parent).contains(node));
    lemma_position(e, parent, node);
    let k = e.position(parent, node);
    assert(k == i) by {
        if k < i {
            assert(t[k] == s[k]);
            assert(s.contains(node));
        }
    }
    assert(t.remove(i) =~= s);
    assert(e.detach(node).nodes =~= d.nodes);
}

/// Removing a node undoes its appending.
pub proof fn law_remove_undoes_append(d: DomView, parent: Handle, node: Handle)
    requires
        d.valid(parent),
        d.valid(node),
        d.parent(node) is None,
        !d.children(parent).contains(node),
    ensures
        d.append(parent, NodeOrText::AppendNode(node)).detach(node) == d,
{
    lemma_attach_is_attach_at(d, parent, node);
    law_remove_undoes_insert(d, parent, d.children(parent).len() as int, node);
}

/// A second removal changes nothing.
pub proof fn law_remove_twice(d: DomView, h: Handle)
    requires
        d.wf(),
        d.valid(h),
    ensures
        d.detach(h).detach(h) == d.detach(h),
{
    assert(d.node_wf(d.node(h)));
}

// ---- attributes ----

/// Attributes that were added are there: every attribute that the element had stays in its place,
/// and every name that was to be added occurs.
pub proof fn law_added_attrs_are_there(
    existing: Seq<AttributeView>,
    attrs: Seq<AttributeView>,
    i: int,
)
    requires
        0 <= i < attrs.len(),
    ensures
        has_qualified_attribute(existing + missing_attributes(existing, attrs), attrs[i].name),
        existing.is_prefix_of(existing + missing_attributes(existing, attrs)),
{
    let keep = |a: AttributeView| !has_qualified_attribute(existing, a.name);
    let all = existing + missing_attributes(existing, attrs);
    if has_qualified_attribute(existing, attrs[i].name) {
        let k = choose|k: int|
            0 <= k < existing.len() && (#[trigger] existing[k]).name == attrs[i].name;
        assert(all[k] == existing[k]);
    } else {
        lemma_filter_keeps(attrs, keep, i);
        let missing = attrs.filter(keep);
        let k = choose|k: int| 0 <= k < missing.len() && missing[k] == attrs[i];
        assert(all[existing.len() + k] == attrs[i]);
    }
}

/// What passes a filter is in what is left.
proof fn lemma_filter_keeps(
    s: Seq<AttributeView>,
    keep: spec_fn(AttributeView) -> bool,
    i: int,
)
    requires
        0 <= i < s.len(),
        keep(s[i]),
    ensures
        s.filter(keep).contains(s[i]),
    decreases s.len(),
{
    reveal(Seq::filter);
    let rest = s.drop_last().filter(keep);
    if i == s.len() - 1 {
        assert(s.filter(keep).last() == s[i]);
        assert(s.filter(keep)[rest.len() as int] == s[i]);
    } else {
        lemma_filter_keeps(s.drop_last(), keep, i);
        let k = choose|k: int| 0 <= k < rest.len() && rest[k] == s[i];
        assert(s.filter(keep)[k] == s[i]);
    }
}

/// Adding the same attributes a second time changes nothing.
pub proof fn law_add_attrs_twice(d: DomView, h: Handle, attrs: Seq<AttributeView>)
    requires
        d.valid(h),
    ensures
        d.add_attrs_if_missing(h, attrs).add_attrs_if_missing(h, attrs)
            == d.add_attrs_if_missing(h, attrs),
{
    if let DataView::Element { attrs: existing, .. } = d.data(h) {
        let all = existing + missing_attributes(existing, attrs);
        let keep = |a: AttributeView| !has_qualified_attribute(all, a.name);
        assert forall|i: int| 0 <= i < attrs.len() implies !keep(#[trigger] attrs[i]) by {
            law_added_attrs_are_there(existing, attrs, i);
        }
        lemma_filter_drops_all(attrs, keep);
        assert(all + missing_attributes(all, attrs) =~= all);
    }
    let e = d.add_attrs_if_missing(h, attrs);
    assert(e.add_attrs_if_missing(h, attrs).nodes =~= e.nodes);
}

/// Where nothing passes a filter, nothing is left.
proof fn lemma_filter_drops_all(s: Seq<AttributeView>, keep: spec_fn(AttributeView) -> bool)
    requires
        forall|i: int| 0 <= i < s.len() ==> !keep(#[trigger] s[i]),
    ensures
        s.filter(keep) == Seq::<AttributeView>::empty(),
    decreases s.len(),
{
    reveal(Seq::filter);
    if s.len() > 0 {
        lemma_filter_drops_all(s.drop_last(), keep);
    }
}

// ---- texts ----

/// Whether no two texts stand next to each other among the children of `parent`.
pub open spec fn texts_apart(d: DomView, parent: Handle) -> bool {
    forall|i: int|
        0 <= i < d.children(parent).len() - 1 ==> !(d.is_text(#[trigger] d.children(parent)[i])
            && d.is_text(d.children(parent)[i + 1]))
}

/// Appending a text puts no two texts next to each other.
pub proof fn law_append_text_keeps_texts_apart(d: DomView, parent: Handle, text: String)
    requires
        d.wf(),
        d.valid(parent),
        d.nodes.len() < usize::MAX,
        texts_apart(d, parent),
    ensures
        texts_apart(d.append(parent, NodeOrText::AppendText(text)), parent),
{
    let e = d.append(parent, NodeOrText::AppendText(text));
    let s = d.children(parent);
    assert(d.node_wf(d.node(parent)));
    if d.ends_in_text(parent) {
        assert(e.children(parent) == s);
        assert forall|h: Handle| d.valid(h) implies d.is_text(h) == #[trigger] e.is_text(h) by {}
        assert forall|i: int|
            0 <= i < e.children(parent).len() - 1 implies !(e.is_text(
            #[trigger] e.children(parent)[i],
        ) && e.is_text(e.children(parent)[i + 1])) by {
            assert(!(d.is_text(s[i]) && d.is_text(s[i + 1])));
        }
    } else {
        let h = d.next_handle();
        assert(e.children(parent) =~= s.push(h));
        assert forall|x: Handle| d.valid(x) implies d.is_text(x) == #[trigger] e.is_text(x) by {}
        assert forall|i: int|
            0 <= i < e.children(parent).len() - 1 implies !(e.is_text(
            #[trigger] e.children(parent)[i],
        ) && e.is_text(e.children(parent)[i + 1])) by {
            if i < s.len() - 1 {
                assert(!(d.is_text(s[i]) && d.is_text(s[i + 1])));
            } else {
                assert(s[i] == s.last());
            }
        }
    }
}

/// Putting a text before a sibling that is no text puts no two texts next to each other.
pub proof fn law_text_before_sibling_keeps_texts_apart(d: DomView, sibling: Handle, text: String)
    requires
        d.wf(),
        d.valid(sibling),
        d.parent(sibling) is Some,
        d.locatable(sibling),
        !d.is_text(sibling),
        d.nodes.len() < usize::MAX,
        texts_apart(d, d.parent(sibling)->0),
    ensures
        texts_apart(
            d.append_before_sibling(sibling, NodeOrText::AppendText(text)),
            d.parent(sibling)->0,
        ),
{
    let parent = d.parent(sibling)->0;
    let e = d.append_before_sibling(sibling, NodeOrText::AppendText(text));
    let s = d.children(parent);
    assert(d.node_wf(d.node(sibling)));
    assert(d.node_wf(d.node(parent)));
    lemma_position(d, parent, sibling);
    let i = d.position(parent, sibling);
    assert forall|x: Handle| d.valid(x) implies d.is_text(x) == #[trigger] e.is_text(x) by {}
    if i > 0 && d.is_text(s[i - 1]) {
        assert(e.children(parent) == s);
        assert forall|k: int|
            0 <= k < e.children(parent).len() - 1 implies !(e.is_text(
            #[trigger] e.children(parent)[k],
        ) && e.is_text(e.children(parent)[k + 1])) by {
            assert(!(d.is_text(s[k]) && d.is_text(s[k + 1])));
        }
    } else {
        let h = d.next_handle();
        assert(e.children(parent) =~= s.insert(i, h));
        assert forall|k: int|
            0 <= k < e.children(parent).len() - 1 implies !(e.is_text(
            #[trigger] e.children(parent)[k],
        ) && e.is_text(e.children(parent)[k + 1])) by {
            if k < i - 1 {
                assert(!(d.is_text(s[k]) && d.is_text(s[k + 1])));
            } else if k > i {
                assert(!(d.is_text(s[k - 1]) && d.is_text(s[k])));
            }
        }
    }
}

// ---- the way up ends ----

/// A bound on what the ranks of the first `n` nodes are.
proof fn lemma_rank_bound(d: DomView, rank: spec_fn(Handle) -> nat, n: nat) -> (bound: nat)
    requires
        n <= d.nodes.len(),
        d.wf(),
    ensures
        forall|h: Handle| h.0 < n ==> #[trigger] rank(h) <= bound,
    decreases n,
{
    if n == 0 {
        0
    } else {
        let before = lemma_rank_bound(d, rank, (n - 1) as nat);
        let last = Handle((n - 1) as usize);
        let bound = if rank(last) > before {
            rank(last)
        } else {
            before
        };
        assert forall|h: Handle| h.0 < n implies #[trigger] rank(h) <= bound by {
            if h.0 == n - 1 {
                assert(h == last);
            }
        }
        bound
    }
}

/// Ranks rise on the way up.
proof fn lemma_ancestor_rank(d: DomView, rank: spec_fn(Handle) -> nat, h: Handle, n: nat)
    requires
        d.wf(),
        d.linked(),
        d.ranked(rank),
        d.live(h),
    ensures
        d.ancestor(h, n) matches Some(a) ==> d.live(a) && rank(a) >= rank(h) + n,
    decreases n,
{
    if n > 0 {
        lemma_ancestor_rank(d, rank, h, (n - 1) as nat);
        if let Some(a) = d.ancestor(h, (n - 1) as nat) {
            assert(d.node_wf(d.node(a)));
            assert(d.locatable(a));
            if let Some(p) = d.parent(a) {
                let i = choose|i: int| 0 <= i < d.children(p).len() && d.children(p)[i] == a;
                assert(rank(d.children(p)[i]) < rank(p));
            }
        }
    }
}

/// In a tree the way up from a node ends, so that it is settled which select an option belongs to.
pub proof fn law_way_up_is_settled(d: DomView, h: Handle)
    requires
        d.wf(),
        d.is_tree(),
        d.live(h),
    ensures
        exists|n: nat| d.settled_at(h, n),
{
    let rank = choose|rank: spec_fn(Handle) -> nat| d.ranked(rank);
    let bound = lemma_rank_bound(d, rank, d.nodes.len());
    let n = bound + 1;
    lemma_ancestor_rank(d, rank, h, n);
    assert(d.ancestor(h, n) is None);
    assert(d.settled_at(h, n));
}

/// On the way up ranks rise strictly.
proof fn lemma_ancestor_rank_rises(
    d: DomView,
    rank: spec_fn(Handle) -> nat,
    h: Handle,
    i: nat,
    j: nat,
)
    requires
        d.wf(),
        d.linked(),
        d.ranked(rank),
        d.live(h),
        i < j,
        d.ancestor(h, j) is Some,
    ensures
        d.ancestor(h, i) is Some,
        rank(d.ancestor(h, i)->0) < rank(d.ancestor(h, j)->0),
    decreases j,
{
    let below = (j - 1) as nat;
    lemma_ancestor_rank(d, rank, h, below);
    let a = d.ancestor(h, below)->0;
    assert(d.node_wf(d.node(a)));
    assert(d.locatable(a));
    let p = d.parent(a)->0;
    let k = choose|k: int| 0 <= k < d.children(p).len() && d.children(p)[k] == a;
    assert(rank(d.children(p)[k]) < rank(p));
    if i < below {
        lemma_ancestor_rank_rises(d, rank, h, i, below);
    }
}

/// In a tree no node has as many ancestors as there are nodes.
pub proof fn law_way_up_is_short(d: DomView, h: Handle)
    requires
        d.wf(),
        d.is_tree(),
        d.live(h),
    ensures
        d.ancestor(h, d.nodes.len()) is None,
{
    let n = d.nodes.len();
    if d.ancestor(h, n) is Some {
        let rank = choose|rank: spec_fn(Handle) -> nat| d.ranked(rank);
        let places = Seq::new(n + 1, |i: int| (d.ancestor(h, i as nat)->0).0 as int);
        assert forall|i: int, j: int| 0 <= i < j < places.len() implies places[i] != places[j] by {
            if j < n {
                lemma_ancestor_rank_rises(d, rank, h, j as nat, n);
            }
            lemma_ancestor_rank_rises(d, rank, h, i as nat, j as nat);
        }
        assert(places.no_duplicates());
        assert forall|i: int| 0 <= i < places.len() implies 0 <= #[trigger] places[i] < n by {
            if i < n {
                lemma_ancestor_rank_rises(d, rank, h, i as nat, n);
            }
            lemma_ancestor_rank(d, rank, h, i as nat);
        }
        places.unique_seq_to_set();
        lemma_int_range(0, n as int);
        assert(places.to_set().subset_of(set_int_range(0, n as int)));
        lemma_len_subset(places.to_set(), set_int_range(0, n as int));
    }
}

} // verus!
