//! What each step of tree construction keeps.

use crate::interface::Handle;
use crate::model::{detached, DataView, DomView, NodeView};
use vstd::prelude::*;

verus! {

// ---- every handle names a node ----

/// Replacing a node by one whose handles are in the document keeps all handles in it.
pub proof fn lemma_set_node_wf(d: DomView, h: Handle, node: NodeView)
    requires
        d.wf(),
        d.valid(h),
        d.node_wf(node),
    ensures
        d.set_node(h, node).wf(),
{
    let e = d.set_node(h, node);
    assert forall|x: Handle| e.valid(x) implies e.node_wf(#[trigger] e.node(x)) by {
        assert(d.node_wf(d.node(x)));
    }
}

/// A document with the same nodes has all handles in it too.
pub proof fn lemma_same_nodes_wf(d: DomView, e: DomView)
    requires
        e.nodes == d.nodes,
        e.document == d.document,
    ensures
        d.wf() ==> e.wf(),
{
    if d.wf() {
        assert forall|h: Handle| e.valid(h) implies e.node_wf(#[trigger] e.node(h)) by {
            assert(d.node_wf(d.node(h)));
        }
    }
}

/// Adding a node whose handles are in the document keeps all handles in it.
pub proof fn lemma_add_node_wf(d: DomView, node: NodeView)
    requires
        d.wf(),
        d.nodes.len() < usize::MAX,
        d.node_wf(node),
    ensures
        d.add_node(node).wf(),
{
    let e = d.add_node(node);
    assert forall|x: Handle| e.valid(x) implies e.node_wf(#[trigger] e.node(x)) by {
        if d.valid(x) {
            assert(d.node_wf(d.node(x)));
        }
    }
}

/// Giving a node a parent keeps all handles in the document.
pub proof fn lemma_set_parent_wf(d: DomView, h: Handle, parent: Option<Handle>)
    requires
        d.wf(),
        d.valid(h),
        parent matches Some(p) ==> d.valid(p),
    ensures
        d.set_parent(h, parent).wf(),
{
    assert(d.node_wf(d.node(h)));
    lemma_set_node_wf(d, h, NodeView { parent, ..d.node(h) });
}

/// Giving a node other children keeps all handles in the document.
pub proof fn lemma_set_children_wf(d: DomView, h: Handle, children: Seq<Handle>)
    requires
        d.wf(),
        d.valid(h),
        forall|i: int| 0 <= i < children.len() ==> d.valid(#[trigger] children[i]),
    ensures
        d.set_children(h, children).wf(),
{
    assert(d.node_wf(d.node(h)));
    lemma_set_node_wf(d, h, NodeView { children, ..d.node(h) });
}

/// Attaching a node keeps all handles in the document.
pub proof fn lemma_attach_at_wf(d: DomView, parent: Handle, i: int, child: Handle)
    requires
        d.wf(),
        d.valid(parent),
        d.valid(child),
        0 <= i <= d.children(parent).len(),
    ensures
        d.attach_at(parent, i, child).wf(),
{
    lemma_set_parent_wf(d, child, Some(parent));
    let e = d.set_parent(child, Some(parent));
    assert(e.node_wf(e.node(parent)));
    lemma_set_children_wf(e, parent, e.children(parent).insert(i, child));
}

/// Appending is inserting after the last child.
pub proof fn lemma_attach_is_attach_at(d: DomView, parent: Handle, child: Handle)
    requires
        d.valid(parent),
        d.valid(child),
    ensures
        d.attach(parent, child) == d.attach_at(parent, d.children(parent).len() as int, child),
{
    let e = d.set_parent(child, Some(parent));
    assert(e.children(parent).push(child) =~= e.children(parent).insert(
        e.children(parent).len() as int,
        child,
    ));
}

/// A node that can be located stands at its position among its parent's children.
pub proof fn lemma_position(d: DomView, parent: Handle, h: Handle)
    requires
        d.children(parent).contains(h),
    ensures
        0 <= d.position(parent, h) < d.children(parent).len(),
        d.children(parent)[d.position(parent, h)] == h,
        forall|j: int| 0 <= j < d.position(parent, h) ==> d.children(parent)[j] != h,
{
    let s = d.children(parent);
    s.index_of_first_ensures(h);
    let i = s.index_of_first(h)->0;
    assert(0 <= i < s.len() && s[i] == h && forall|j: int| 0 <= j < i ==> s[j] != h);
}

/// Detaching a node keeps all handles in the document.
pub proof fn lemma_detach_wf(d: DomView, h: Handle)
    requires
        d.wf(),
        d.valid(h),
        d.locatable(h),
    ensures
        d.detach(h).wf(),
{
    assert(d.node_wf(d.node(h)));
    if let Some(p) = d.parent(h) {
        lemma_position(d, p, h);
        assert(d.node_wf(d.node(p)));
        let children = d.children(p).remove(d.position(p, h));
        lemma_set_children_wf(d, p, children);
        lemma_set_parent_wf(d.set_children(p, children), h, None);
    }
}

/// Moving the children of a node keeps all handles in the document.
pub proof fn lemma_reparent_children_wf(d: DomView, node: Handle, new_parent: Handle)
    requires
        d.wf(),
        d.valid(node),
        d.valid(new_parent),
    ensures
        d.reparent_children(node, new_parent).wf(),
{
    let e = d.reparent_children(node, new_parent);
    assert(d.node_wf(d.node(node)));
    assert forall|h: Handle| e.valid(h) implies e.node_wf(#[trigger] e.node(h)) by {
        assert(d.node_wf(d.node(h)));
        let children = e.children(h);
        assert forall|i: int| 0 <= i < children.len() implies e.valid(#[trigger] children[i]) by {
            if h.0 == new_parent.0 && h.0 != node.0 && i >= d.children(h).len() {
                assert(children[i] == d.children(node)[i - d.children(h).len()]);
            }
        }
    }
}

// ---- parents and children agree ----

/// Inserting a node that has no parent keeps parents and children in agreement.
pub proof fn lemma_attach_at_linked(d: DomView, parent: Handle, i: int, child: Handle)
    requires
        d.wf(),
        d.linked(),
        d.valid(parent),
        d.valid(child),
        d.parent(child) is None,
        0 <= i <= d.children(parent).len(),
    ensures
        d.attach_at(parent, i, child).linked(),
{
    let e = d.attach_at(parent, i, child);
    let s = d.children(parent);
    let t = s.insert(i, child);
    assert(e.children(parent) =~= t);
    assert forall|p: Handle, k: int|
        e.valid(p) && 0 <= k < e.children(p).len() implies e.parent(#[trigger] e.children(p)[k])
        == Some(p) by {
        if p == parent {
            if k < i {
                assert(t[k] == s[k]);
                assert(d.parent(s[k]) == Some(p));
            } else if k > i {
                assert(t[k] == s[k - 1]);
                assert(d.parent(s[k - 1]) == Some(p));
            }
        } else {
            assert(e.children(p) == d.children(p));
            assert(d.parent(d.children(p)[k]) == Some(p));
        }
    }
    assert forall|p: Handle| e.valid(p) implies (#[trigger] e.children(p)).no_duplicates() by {
        assert(d.children(p).no_duplicates());
        if p == parent {
            assert forall|j: int, k: int|
                0 <= j < t.len() && 0 <= k < t.len() && j != k implies t[j] != t[k] by {
                let j0 = if j < i { j } else { j - 1 };
                let k0 = if k < i { k } else { k - 1 };
                if j == i {
                    assert(d.parent(s[k0]) == Some(p));
                } else if k == i {
                    assert(d.parent(s[j0]) == Some(p));
                } else {
                    assert(t[j] == s[j0] && t[k] == s[k0]);
                }
            }
        } else {
            assert(e.children(p) == d.children(p));
        }
    }
    assert forall|h: Handle| e.live(h) implies #[trigger] e.locatable(h) by {
        assert(d.locatable(h));
        if h == child {
            assert(t[i] == child);
        } else if let Some(p) = d.parent(h) {
            assert(d.node_wf(d.node(h)));
            if p == parent {
                let k = choose|k: int| 0 <= k < s.len() && s[k] == h;
                assert(t[if k < i { k } else { k + 1 }] == h);
            } else {
                assert(e.children(p) == d.children(p));
            }
        }
    }
}

/// Detaching a node keeps parents and children in agreement.
pub proof fn lemma_detach_linked(d: DomView, h: Handle)
    requires
        d.wf(),
        d.linked(),
        d.valid(h),
        d.locatable(h),
    ensures
        d.detach(h).linked(),
{
    let e = d.detach(h);
    assert(d.locatable(h));
    assert(d.node_wf(d.node(h)));
    if let Some(q) = d.parent(h) {
        lemma_position(d, q, h);
        let k0 = d.position(q, h);
        let s = d.children(q);
        let t = s.remove(k0);
        assert(s.no_duplicates());
        assert(e.children(q) =~= t);
        assert forall|p: Handle, k: int|
            e.valid(p) && 0 <= k < e.children(p).len() implies e.parent(#[trigger] e.children(p)[k])
            == Some(p) by {
            if p == q {
                let k1 = if k < k0 { k } else { k + 1 };
                assert(t[k] == s[k1]);
                assert(d.parent(s[k1]) == Some(p));
                assert(s[k1] != s[k0]);
            } else {
                assert(e.children(p) == d.children(p));
                assert(d.parent(d.children(p)[k]) == Some(p));
            }
        }
        assert forall|p: Handle| e.valid(p) implies (#[trigger] e.children(p)).no_duplicates() by {
            assert(d.children(p).no_duplicates());
            if p == q {
                assert forall|j: int, k: int|
                    0 <= j < t.len() && 0 <= k < t.len() && j != k implies t[j] != t[k] by {
                    assert(t[j] == s[if j < k0 { j } else { j + 1 }]);
                    assert(t[k] == s[if k < k0 { k } else { k + 1 }]);
                }
            } else {
                assert(e.children(p) == d.children(p));
            }
        }
        assert forall|x: Handle| e.live(x) implies #[trigger] e.locatable(x) by {
            assert(d.locatable(x));
            if x != h {
                if let Some(p) = d.parent(x) {
                    assert(d.node_wf(d.node(x)));
                    if p == q {
                        let k = choose|k: int| 0 <= k < s.len() && s[k] == x;
                        assert(t[if k < k0 { k } else { k - 1 }] == x);
                    } else {
                        assert(e.children(p) == d.children(p));
                    }
                }
            }
        }
    }
}

/// Adding a node keeps parents and children in agreement.
pub proof fn lemma_add_node_linked(d: DomView, data: DataView)
    requires
        d.wf(),
        d.linked(),
    ensures
        d.add_node(detached(data)).linked(),
{
    let e = d.add_node(detached(data));
    assert forall|p: Handle, k: int|
        e.valid(p) && 0 <= k < e.children(p).len() implies e.parent(#[trigger] e.children(p)[k])
        == Some(p) by {
        if d.valid(p) {
            assert(e.node(p) == d.node(p));
            assert(d.node_wf(d.node(p)));
            assert(d.parent(d.children(p)[k]) == Some(p));
        }
    }
    assert forall|p: Handle| e.valid(p) implies (#[trigger] e.children(p)).no_duplicates() by {
        if d.valid(p) {
            assert(d.children(p).no_duplicates());
        }
    }
    assert forall|x: Handle| e.live(x) implies #[trigger] e.locatable(x) by {
        if d.valid(x) {
            assert(d.locatable(x));
            assert(d.node_wf(d.node(x)));
        }
    }
}

/// Changing what a node is keeps parents and children in agreement.
pub proof fn lemma_set_data_linked(d: DomView, h: Handle, data: DataView)
    requires
        d.wf(),
        d.linked(),
        d.valid(h),
    ensures
        d.set_data(h, data).linked(),
{
    let e = d.set_data(h, data);
    assert forall|x: Handle| d.valid(x) implies #[trigger] e.children(x) == d.children(x)
        && e.parent(x) == d.parent(x) by {}
    assert forall|p: Handle, k: int|
        e.valid(p) && 0 <= k < e.children(p).len() implies e.parent(#[trigger] e.children(p)[k])
        == Some(p) by {
        assert(d.node_wf(d.node(p)));
        assert(d.parent(d.children(p)[k]) == Some(p));
    }
    assert forall|p: Handle| e.valid(p) implies (#[trigger] e.children(p)).no_duplicates() by {
        assert(d.children(p).no_duplicates());
    }
    assert forall|x: Handle| e.live(x) implies #[trigger] e.locatable(x) by {
        assert(d.locatable(x));
        assert(d.node_wf(d.node(x)));
    }
}

/// Moving the children of a node keeps parents and children in agreement.
pub proof fn lemma_reparent_children_linked(d: DomView, node: Handle, new_parent: Handle)
    requires
        d.wf(),
        d.linked(),
        d.valid(node),
        d.valid(new_parent),
        node != new_parent,
    ensures
        d.reparent_children(node, new_parent).linked(),
{
    let e = d.reparent_children(node, new_parent);
    let s = d.children(node);
    let t = d.children(new_parent);
    assert(d.node_wf(d.node(node)));
    assert forall|p: Handle, k: int|
        e.valid(p) && 0 <= k < e.children(p).len() implies e.parent(#[trigger] e.children(p)[k])
        == Some(p) by {
        assert(d.node_wf(d.node(p)));
        let x = e.children(p)[k];
        if p == new_parent && k >= t.len() {
            assert(x == s[k - t.len()]);
            assert(s.contains(x));
            assert(Handle(x.0 as int as usize) == x);
        } else {
            assert(x == d.children(p)[k]);
            assert(d.parent(x) == Some(p));
            if s.contains(x) {
                let j = choose|j: int| 0 <= j < s.len() && s[j] == x;
                assert(d.parent(s[j]) == Some(node));
            }
        }
    }
    assert forall|p: Handle| e.valid(p) implies (#[trigger] e.children(p)).no_duplicates() by {
        assert(d.children(p).no_duplicates());
        assert(s.no_duplicates());
        if p == new_parent {
            assert forall|j: int, k: int|
                0 <= j < (t + s).len() && 0 <= k < (t + s).len() && j != k implies (t + s)[j] != (t
                + s)[k] by {
                if j < t.len() && k >= t.len() {
                    assert(d.parent(t[j]) == Some(new_parent));
                    assert(d.parent(s[k - t.len()]) == Some(node));
                } else if k < t.len() && j >= t.len() {
                    assert(d.parent(t[k]) == Some(new_parent));
                    assert(d.parent(s[j - t.len()]) == Some(node));
                }
            }
            assert(e.children(p) =~= t + s);
        }
    }
    assert forall|x: Handle| e.live(x) implies #[trigger] e.locatable(x) by {
        assert(d.locatable(x));
        assert(d.node_wf(d.node(x)));
        assert(Handle(x.0 as int as usize) == x);
        if s.contains(x) {
            let j = choose|j: int| 0 <= j < s.len() && s[j] == x;
            assert((t + s)[t.len() + j] == x);
        } else if let Some(p) = d.parent(x) {
            let j = choose|j: int| 0 <= j < d.children(p).len() && d.children(p)[j] == x;
            if p == new_parent {
                assert((t + s)[j] == x);
            }
        }
    }
}

// ---- no node is its own descendant ----

/// A node reaches itself.
pub proof fn lemma_reaches_self(d: DomView, h: Handle)
    ensures
        d.reaches(h, h),
{
    assert(d.descends_along(seq![h]));
}

/// What a node reaches, reaches its children.
pub proof fn lemma_reaches_child(d: DomView, upper: Handle, h: Handle, i: int)
    requires
        d.reaches(upper, h),
        d.valid(h),
        0 <= i < d.children(h).len(),
    ensures
        d.reaches(upper, d.children(h)[i]),
{
    let path = choose|path: Seq<Handle>|
        {
            &&& path.len() > 0
            &&& path.first() == upper
            &&& path.last() == h
            &&& #[trigger] d.descends_along(path)
        };
    let longer = path.push(d.children(h)[i]);
    assert(longer.first() == upper);
    assert forall|k: int| 0 <= k < longer.len() - 1 implies d.valid(#[trigger] longer[k])
        && d.children(longer[k]).contains(longer[k + 1]) by {
        assert(longer[k] == path[k]);
        if k < path.len() - 1 {
            assert(longer[k + 1] == path[k + 1]);
        }
    }
    assert(d.descends_along(longer));
}

/// New children that reach none of their new ancestors leave no node its own descendant: `moved`
/// holds what hangs under the new children.
proof fn lemma_new_edges_finite_depth(
    d: DomView,
    e: DomView,
    moved: spec_fn(Handle) -> bool,
    rank: spec_fn(Handle) -> nat,
    bound: nat,
)
    requires
        d.ranked(rank),
        d.nodes.len() == e.nodes.len(),
        forall|p: Handle, i: int|
            d.valid(p) && moved(p) && 0 <= i < d.children(p).len() ==> moved(
                #[trigger] d.children(p)[i],
            ),
        forall|p: Handle, i: int|
            e.valid(p) && 0 <= i < e.children(p).len() ==> {
                let c = #[trigger] e.children(p)[i];
                d.children(p).contains(c) || (!moved(p) && moved(c) && rank(c) < bound)
            },
    ensures
        e.finite_depth(),
{
    let lifted = |h: Handle| if moved(h) { rank(h) } else { rank(h) + bound };
    assert forall|p: Handle, i: int|
        e.valid(p) && 0 <= i < e.children(p).len() implies lifted(#[trigger] e.children(p)[i])
        < lifted(p) by {
        let c = e.children(p)[i];
        if d.children(p).contains(c) {
            let k = choose|k: int| 0 <= k < d.children(p).len() && d.children(p)[k] == c;
            assert(rank(d.children(p)[k]) < rank(p));
            assert(moved(p) ==> moved(d.children(p)[k]));
        }
    }
    assert(e.ranked(lifted));
}

/// Inserting a node that does not reach its new parent leaves no node its own descendant.
pub proof fn lemma_attach_at_finite_depth(d: DomView, parent: Handle, i: int, child: Handle)
    requires
        d.wf(),
        d.finite_depth(),
        d.valid(parent),
        d.valid(child),
        0 <= i <= d.children(parent).len(),
        !d.reaches(child, parent),
    ensures
        d.attach_at(parent, i, child).finite_depth(),
{
    let e = d.attach_at(parent, i, child);
    let s = d.children(parent);
    let rank = choose|rank: spec_fn(Handle) -> nat| d.ranked(rank);
    let moved = |h: Handle| d.reaches(child, h);
    lemma_reaches_self(d, child);
    assert forall|p: Handle, k: int|
        d.valid(p) && moved(p) && 0 <= k < d.children(p).len() implies moved(
        #[trigger] d.children(p)[k],
    ) by {
        lemma_reaches_child(d, child, p, k);
    }
    assert forall|p: Handle, k: int| e.valid(p) && 0 <= k < e.children(p).len() implies {
        let c = #[trigger] e.children(p)[k];
        d.children(p).contains(c) || (!moved(p) && moved(c) && rank(c) < rank(child) + 1)
    } by {
        if p == parent {
            assert(e.children(p) =~= s.insert(i, child));
            if k < i {
                assert(e.children(p)[k] == s[k]);
            } else if k > i {
                assert(e.children(p)[k] == s[k - 1]);
            }
        } else {
            assert(e.children(p) == d.children(p));
        }
    }
    lemma_new_edges_finite_depth(d, e, moved, rank, rank(child) + 1);
}

/// Detaching a node leaves no node its own descendant.
pub proof fn lemma_detach_finite_depth(d: DomView, h: Handle)
    requires
        d.wf(),
        d.finite_depth(),
        d.valid(h),
        d.locatable(h),
    ensures
        d.detach(h).finite_depth(),
        forall|upper: Handle, lower: Handle|
            #[trigger] d.detach(h).reaches(upper, lower) ==> d.reaches(upper, lower),
{
    let e = d.detach(h);
    let rank = choose|rank: spec_fn(Handle) -> nat| d.ranked(rank);
    assert forall|p: Handle, k: int| e.valid(p) && 0 <= k < e.children(p).len() implies d.children(
        p,
    ).contains(#[trigger] e.children(p)[k]) by {
        lemma_detach_shrinks(d, h, p);
    }
    assert forall|p: Handle, k: int|
        e.valid(p) && 0 <= k < e.children(p).len() implies rank(#[trigger] e.children(p)[k]) < rank(
        p,
    ) by {
        let c = e.children(p)[k];
        let j = choose|j: int| 0 <= j < d.children(p).len() && d.children(p)[j] == c;
        assert(rank(d.children(p)[j]) < rank(p));
    }
    assert(e.ranked(rank));
    assert forall|upper: Handle, lower: Handle| #[trigger] e.reaches(upper, lower) implies d.reaches(
        upper,
        lower,
    ) by {
        let path = choose|path: Seq<Handle>|
            {
                &&& path.len() > 0
                &&& path.first() == upper
                &&& path.last() == lower
                &&& #[trigger] e.descends_along(path)
            };
        assert forall|i: int| 0 <= i < path.len() - 1 implies d.valid(#[trigger] path[i])
            && d.children(path[i]).contains(path[i + 1]) by {
            let k = choose|k: int|
                0 <= k < e.children(path[i]).len() && e.children(path[i])[k] == path[i + 1];
            assert(d.children(path[i]).contains(e.children(path[i])[k]));
        }
        assert(d.descends_along(path));
    }
}

/// Detaching a node gives no node a child that it did not have.
proof fn lemma_detach_shrinks(d: DomView, h: Handle, p: Handle)
    requires
        d.wf(),
        d.valid(h),
        d.valid(p),
        d.locatable(h),
    ensures
        forall|k: int|
            0 <= k < d.detach(h).children(p).len() ==> d.children(p).contains(
                #[trigger] d.detach(h).children(p)[k],
            ),
        d.parent(h) == Some(p) ==> d.detach(h).children(p).len() == d.children(p).len() - 1,
        d.parent(h) != Some(p) ==> d.detach(h).children(p) == d.children(p),
{
    let e = d.detach(h);
    assert(d.node_wf(d.node(h)));
    if d.parent(h) == Some(p) {
        lemma_position(d, p, h);
        let k0 = d.position(p, h);
        let s = d.children(p);
        assert(e.children(p) =~= s.remove(k0));
        assert forall|k: int| 0 <= k < e.children(p).len() implies s.contains(
            #[trigger] e.children(p)[k],
        ) by {
            assert(e.children(p)[k] == s[if k < k0 { k } else { k + 1 }]);
        }
    } else {
        assert(e.children(p) == d.children(p));
    }
}

/// Adding a node leaves no node its own descendant.
pub proof fn lemma_add_node_finite_depth(d: DomView, data: DataView)
    requires
        d.wf(),
        d.finite_depth(),
    ensures
        d.add_node(detached(data)).finite_depth(),
{
    let e = d.add_node(detached(data));
    let rank = choose|rank: spec_fn(Handle) -> nat| d.ranked(rank);
    assert forall|p: Handle, k: int|
        e.valid(p) && 0 <= k < e.children(p).len() implies rank(#[trigger] e.children(p)[k]) < rank(
        p,
    ) by {
        if d.valid(p) {
            assert(e.node(p) == d.node(p));
            assert(rank(d.children(p)[k]) < rank(p));
        }
    }
    assert(e.ranked(rank));
}

/// Changing what a node is leaves no node its own descendant.
pub proof fn lemma_set_data_finite_depth(d: DomView, h: Handle, data: DataView)
    requires
        d.wf(),
        d.finite_depth(),
        d.valid(h),
    ensures
        d.set_data(h, data).finite_depth(),
{
    let e = d.set_data(h, data);
    let rank = choose|rank: spec_fn(Handle) -> nat| d.ranked(rank);
    assert forall|p: Handle, k: int|
        e.valid(p) && 0 <= k < e.children(p).len() implies rank(#[trigger] e.children(p)[k]) < rank(
        p,
    ) by {
        assert(e.children(p) == d.children(p));
        assert(rank(d.children(p)[k]) < rank(p));
    }
    assert(e.ranked(rank));
}

/// Moving children none of which reaches its new parent leaves no node its own descendant.
pub proof fn lemma_reparent_children_finite_depth(d: DomView, node: Handle, new_parent: Handle)
    requires
        d.wf(),
        d.finite_depth(),
        d.valid(node),
        d.valid(new_parent),
        node != new_parent,
        forall|i: int|
            0 <= i < d.children(node).len() ==> !d.reaches(
                #[trigger] d.children(node)[i],
                new_parent,
            ),
    ensures
        d.reparent_children(node, new_parent).finite_depth(),
{
    let e = d.reparent_children(node, new_parent);
    let s = d.children(node);
    let rank = choose|rank: spec_fn(Handle) -> nat| d.ranked(rank);
    let moved = |h: Handle|
        exists|i: int| 0 <= i < s.len() && d.reaches(#[trigger] s[i], h);
    assert forall|p: Handle, k: int|
        d.valid(p) && moved(p) && 0 <= k < d.children(p).len() implies moved(
        #[trigger] d.children(p)[k],
    ) by {
        let i = choose|i: int| 0 <= i < s.len() && d.reaches(#[trigger] s[i], p);
        lemma_reaches_child(d, s[i], p, k);
    }
    assert forall|p: Handle, k: int| e.valid(p) && 0 <= k < e.children(p).len() implies {
        let c = #[trigger] e.children(p)[k];
        d.children(p).contains(c) || (!moved(p) && moved(c) && rank(c) < rank(node))
    } by {
        let t = d.children(new_parent);
        if p == new_parent && k >= t.len() {
            let i = k - t.len();
            assert(e.children(p)[k] == s[i]);
            lemma_reaches_self(d, s[i]);
            assert(rank(d.children(node)[i]) < rank(node));
        } else {
            assert(e.children(p)[k] == d.children(p)[k]);
        }
    }
    lemma_new_edges_finite_depth(d, e, moved, rank, rank(node));
}

/// A node without children reaches itself alone.
pub proof fn lemma_leaf_reaches(d: DomView, h: Handle, x: Handle)
    requires
        d.children(h).len() == 0,
        d.reaches(h, x),
    ensures
        x == h,
{
    let path = choose|path: Seq<Handle>|
        {
            &&& path.len() > 0
            &&& path.first() == h
            &&& path.last() == x
            &&& #[trigger] d.descends_along(path)
        };
    if path.len() > 1 {
        assert(d.children(path[0]).contains(path[1]));
    }
}

/// A node does not hang under its children.
pub proof fn lemma_child_does_not_reach(d: DomView, h: Handle, i: int)
    requires
        d.wf(),
        d.finite_depth(),
        d.valid(h),
        0 <= i < d.children(h).len(),
    ensures
        !d.reaches(d.children(h)[i], h),
{
    let rank = choose|rank: spec_fn(Handle) -> nat| d.ranked(rank);
    let c = d.children(h)[i];
    if d.reaches(c, h) {
        let path = choose|path: Seq<Handle>|
            {
                &&& path.len() > 0
                &&& path.first() == c
                &&& path.last() == h
                &&& #[trigger] d.descends_along(path)
            };
        lemma_rank_falls(d, rank, path, path.len() - 1);
        assert(rank(d.children(h)[i]) < rank(h));
    }
}

/// Ranks fall along a path.
proof fn lemma_rank_falls(
    d: DomView,
    rank: spec_fn(Handle) -> nat,
    path: Seq<Handle>,
    n: int,
)
    requires
        d.ranked(rank),
        d.descends_along(path),
        0 <= n < path.len(),
    ensures
        rank(path[n]) <= rank(path[0]),
    decreases n,
{
    if n > 0 {
        lemma_rank_falls(d, rank, path, n - 1);
        let p = path[n - 1];
        assert(d.children(p).contains(path[n - 1 + 1]));
        let i = choose|i: int| 0 <= i < d.children(p).len() && d.children(p)[i] == path[n];
        assert(rank(d.children(p)[i]) < rank(p));
    }
}

/// What hangs under a node stays what it is where the nodes under it stay what they are.
pub proof fn lemma_same_below_same_tree(d: DomView, e: DomView, h: Handle)
    requires
        d.wf(),
        d.finite_depth(),
        e.wf(),
        e.finite_depth(),
        d.valid(h),
        d.nodes.len() <= e.nodes.len(),
        forall|x: Handle|
            #[trigger] d.reaches(h, x) && d.valid(x) ==> e.children(x) == d.children(x) && e.data(x)
                == d.data(x),
    ensures
        e.tree(h) == d.tree(h),
    decreases d.height(h),
{
    lemma_reaches_self(d, h);
    assert(d.node_wf(d.node(h)));
    let hs = d.children(h);
    assert forall|i: int| 0 <= i < hs.len() implies #[trigger] e.tree(h).children[i] == d.tree(
        h,
    ).children[i] by {
        assert forall|x: Handle| #[trigger] d.reaches(hs[i], x) && d.valid(x) implies e.children(x)
            == d.children(x) && e.data(x) == d.data(x) by {
            lemma_reaches_below(d, h, i, x);
        }
        lemma_same_below_same_tree(d, e, hs[i]);
    }
    assert(e.tree(h).children =~= d.tree(h).children);
}

/// What a child reaches, its parent reaches.
proof fn lemma_reaches_below(d: DomView, h: Handle, i: int, x: Handle)
    requires
        d.valid(h),
        0 <= i < d.children(h).len(),
        d.reaches(d.children(h)[i], x),
    ensures
        d.reaches(h, x),
{
    let path = choose|path: Seq<Handle>|
        {
            &&& path.len() > 0
            &&& path.first() == d.children(h)[i]
            &&& path.last() == x
            &&& #[trigger] d.descends_along(path)
        };
    let longer = seq![h] + path;
    assert(longer.last() == x);
    assert forall|k: int| 0 <= k < longer.len() - 1 implies d.valid(#[trigger] longer[k])
        && d.children(longer[k]).contains(longer[k + 1]) by {
        if k == 0 {
            assert(longer[1] == d.children(h)[i]);
        } else {
            assert(longer[k] == path[k - 1]);
            assert(longer[k + 1] == path[k - 1 + 1]);
        }
    }
    assert(d.descends_along(longer));
}

/// What reaches a node from above reaches the node's parent.
pub proof fn lemma_reaches_parent(d: DomView, upper: Handle, x: Handle, parent: Handle)
    requires
        d.linked(),
        d.reaches(upper, x),
        upper != x,
        d.parent(x) == Some(parent),
    ensures
        d.reaches(upper, parent),
{
    let path = choose|path: Seq<Handle>|
        {
            &&& path.len() > 0
            &&& path.first() == upper
            &&& path.last() == x
            &&& #[trigger] d.descends_along(path)
        };
    let n = path.len() - 2;
    assert(d.children(path[n]).contains(path[n + 1]));
    let i = choose|i: int| 0 <= i < d.children(path[n]).len() && d.children(path[n])[i] == x;
    assert(d.parent(d.children(path[n])[i]) == Some(path[n]));
    let shorter = path.drop_last();
    assert forall|k: int| 0 <= k < shorter.len() - 1 implies d.valid(#[trigger] shorter[k])
        && d.children(shorter[k]).contains(shorter[k + 1]) by {
        assert(shorter[k] == path[k]);
        assert(d.children(path[k]).contains(path[k + 1]));
    }
    assert(d.descends_along(shorter));
}

} // verus!
