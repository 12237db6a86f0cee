//! The mathematical model of a document: a sequence of nodes that name one another by handle.

use crate::interface::{
    has_attribute, has_qualified_attribute, AttributeView, Handle, NodeOrText, QualNameView,
    QuirksMode,
};
use vstd::prelude::*;

verus! {

/// What a node is, without its place in the document.
#[allow(inconsistent_fields)]
#[verifier::ext_equal]
pub enum DataView {
    Document,
    Doctype { name: Seq<char>, public_id: Seq<char>, system_id: Seq<char> },
    Text { contents: Seq<char> },
    Comment { contents: Seq<char> },
    Element {
        name: QualNameView,
        attrs: Seq<AttributeView>,
        template_contents: Option<Handle>,
        mathml_annotation_xml_integration_point: bool,
    },
    ProcessingInstruction { target: Seq<char>, contents: Seq<char> },
}

/// A node: what it is, and its place in the document.
#[verifier::ext_equal]
pub struct NodeView {
    pub parent: Option<Handle>,
    pub children: Seq<Handle>,
    pub data: DataView,
    pub dropped: bool,
}

/// A document.
#[verifier::ext_equal]
pub struct DomView {
    pub nodes: Seq<NodeView>,
    pub document: Handle,
    pub errors: Seq<Seq<char>>,
    pub quirks_mode: QuirksMode,
}

/// What hangs under a node, handles forgotten.
pub struct Tree {
    pub data: DataView,
    pub children: Seq<Tree>,
}

/// How many nodes a tree has.
pub open spec fn tree_size(tree: Tree) -> nat
    decreases tree,
{
    1 + forest_size(tree.children)
}

/// How many nodes a sequence of trees has.
pub open spec fn forest_size(trees: Seq<Tree>) -> nat
    decreases trees,
{
    if trees.len() == 0 {
        0
    } else {
        forest_size(trees.drop_last()) + tree_size(trees.last())
    }
}

/// A node that is in no document tree yet.
pub open spec fn detached(data: DataView) -> NodeView {
    NodeView { parent: None, children: Seq::empty(), data, dropped: false }
}

impl DomView {
    // ---- reading ----

    /// Whether `h` names a node of this document.
    pub open spec fn valid(self, h: Handle) -> bool {
        h.0 < self.nodes.len()
    }

    pub open spec fn node(self, h: Handle) -> NodeView {
        self.nodes[h.0 as int]
    }

    pub open spec fn parent(self, h: Handle) -> Option<Handle> {
        self.node(h).parent
    }

    pub open spec fn children(self, h: Handle) -> Seq<Handle> {
        self.node(h).children
    }

    pub open spec fn data(self, h: Handle) -> DataView {
        self.node(h).data
    }

    /// Whether the last handle of `h` has been given up.
    pub open spec fn dropped(self, h: Handle) -> bool {
        self.node(h).dropped
    }

    /// Whether `h` names a node of this document that has not been dropped.
    pub open spec fn live(self, h: Handle) -> bool {
        self.valid(h) && !self.dropped(h)
    }

    /// The parent of `h`, if that has not been dropped.
    pub open spec fn live_parent(self, h: Handle) -> Option<Handle> {
        match self.parent(h) {
            Some(p) => if self.dropped(p) {
                None
            } else {
                Some(p)
            },
            None => None,
        }
    }

    pub open spec fn is_text(self, h: Handle) -> bool {
        self.data(h) is Text
    }

    pub open spec fn is_element(self, h: Handle) -> bool {
        self.data(h) is Element
    }

    /// Whether `h` is an element with the local name `local`.
    pub open spec fn is_named(self, h: Handle, local: Seq<char>) -> bool {
        &&& self.is_element(h)
        &&& self.data(h)->Element_name.local == local
    }

    // ---- well-formedness ----

    /// Every handle that occurs in the node names a node of this document.
    pub open spec fn node_wf(self, node: NodeView) -> bool {
        &&& node.parent matches Some(p) ==> self.valid(p)
        &&& forall|i: int| 0 <= i < node.children.len() ==> self.valid(#[trigger] node.children[i])
        &&& node.data matches DataView::Element { template_contents: Some(t), .. } ==> self.valid(t)
    }

    /// Every handle that occurs in the document names a node of it.
    pub open spec fn wf(self) -> bool {
        &&& self.nodes.len() <= usize::MAX
        &&& self.valid(self.document)
        &&& forall|h: Handle| self.valid(h) ==> self.node_wf(#[trigger] self.node(h))
    }

    /// A node that has a parent is among that parent's children.
    pub open spec fn locatable(self, h: Handle) -> bool {
        self.parent(h) matches Some(p) ==> self.children(p).contains(h)
    }

    /// Parents and children agree: the children of a node are distinct, each of them has that
    /// node as its parent, and a node that has a parent, and has not been dropped, is among that
    /// parent's children.
    pub open spec fn linked(self) -> bool {
        &&& forall|p: Handle, i: int|
            self.valid(p) && 0 <= i < self.children(p).len() ==> self.parent(
                #[trigger] self.children(p)[i],
            ) == Some(p)
        &&& forall|p: Handle| self.valid(p) ==> (#[trigger] self.children(p)).no_duplicates()
        &&& forall|h: Handle| self.live(h) ==> #[trigger] self.locatable(h)
    }

    /// `rank` falls strictly from every node to each of its children.
    pub open spec fn ranked(self, rank: spec_fn(Handle) -> nat) -> bool {
        forall|p: Handle, i: int|
            self.valid(p) && 0 <= i < self.children(p).len() ==> rank(
                #[trigger] self.children(p)[i],
            ) < rank(p)
    }

    /// No node is its own descendant.
    pub open spec fn finite_depth(self) -> bool {
        exists|rank: spec_fn(Handle) -> nat| self.ranked(rank)
    }

    /// Parents and children agree, and no node is its own descendant.
    pub open spec fn is_tree(self) -> bool {
        &&& self.linked()
        &&& self.finite_depth()
    }

    /// Whether every node of `path` but the first is a child of the one before.
    pub open spec fn descends_along(self, path: Seq<Handle>) -> bool {
        forall|i: int|
            0 <= i < path.len() - 1 ==> self.valid(#[trigger] path[i]) && self.children(
                path[i],
            ).contains(path[i + 1])
    }

    /// Whether `lower` is `upper` or a descendant of it.
    pub open spec fn reaches(self, upper: Handle, lower: Handle) -> bool {
        exists|path: Seq<Handle>|
            {
                &&& path.len() > 0
                &&& path.first() == upper
                &&& path.last() == lower
                &&& #[trigger] self.descends_along(path)
            }
    }

    /// A bound on how far a node is above the leaves under it.
    pub open spec fn height(self, h: Handle) -> nat {
        let rank = choose|rank: spec_fn(Handle) -> nat| self.ranked(rank);
        rank(h)
    }

    /// What hangs under `h`.
    pub open spec fn tree(self, h: Handle) -> Tree
        decreases self.height(h),
        when self.wf() && self.finite_depth() && self.valid(h)
    {
        Tree {
            data: self.data(h),
            children: Seq::new(
                self.children(h).len(),
                |i: int|
                    if 0 <= i < self.children(h).len() {
                        self.tree(self.children(h)[i])
                    } else {
                        arbitrary()
                    },
            ),
        }
    }

    /// What hangs under each of `hs`.
    pub open spec fn forest(self, hs: Seq<Handle>) -> Seq<Tree> {
        Seq::new(hs.len(), |i: int| self.tree(hs[i]))
    }

    /// The `n`-th ancestor of `h`: the node itself is the zeroth, its parent the first. A parent
    /// that has been dropped ends the way up.
    pub open spec fn ancestor(self, h: Handle, n: nat) -> Option<Handle>
        decreases n,
    {
        if n == 0 {
            Some(h)
        } else {
            match self.ancestor(h, (n - 1) as nat) {
                Some(a) => self.live_parent(a),
                None => None,
            }
        }
    }

    /// Whether the `n`-th ancestor of `h` is there and is an element named `local`.
    pub open spec fn ancestor_named(self, h: Handle, n: nat, local: Seq<char>) -> bool {
        self.ancestor(h, n) matches Some(a) && self.is_named(a, local)
    }

    /// Whether an option whose `n`-th ancestor stands between it and a select is none of that
    /// select's options.
    pub open spec fn ancestor_shields(self, h: Handle, n: nat) -> bool {
        ||| self.ancestor_named(h, n, "datalist"@)
        ||| self.ancestor_named(h, n, "hr"@)
        ||| self.ancestor_named(h, n, "option"@)
    }

    /// Whether the `n`-th ancestor of `h` is the nearest ancestor select of the option `h`: it is
    /// the first select on the way up, nothing on the way shields it, and at most one of the
    /// ancestors on the way is an option group.
    pub open spec fn nearest_select_at(self, h: Handle, n: nat) -> bool {
        &&& n >= 1
        &&& self.ancestor_named(h, n, "select"@)
        &&& forall|j: nat|
            1 <= j < n ==> !(#[trigger] self.ancestor_shields(h, j)) && !self.ancestor_named(
                h,
                j,
                "select"@,
            )
        &&& forall|i: nat, j: nat|
            1 <= i < j < n ==> !(#[trigger] self.ancestor_named(h, i, "optgroup"@)
                && #[trigger] self.ancestor_named(h, j, "optgroup"@))
    }

    /// Whether the way up from `h` is settled at its `n`-th ancestor: there is none, or it is a
    /// select, shields the option, or is a second option group.
    pub open spec fn settled_at(self, h: Handle, n: nat) -> bool {
        &&& n >= 1
        &&& {
            ||| self.ancestor(h, n) is None
            ||| self.ancestor_shields(h, n)
            ||| self.ancestor_named(h, n, "select"@)
            ||| self.ancestor_named(h, n, "optgroup"@) && exists|i: nat|
                1 <= i < n && #[trigger] self.ancestor_named(h, i, "optgroup"@)
        }
    }

    /// The enabled `selectedcontent` of the element `select`.
    ///
    /// It is the element itself, not its descendants, that has to be named `selectedcontent`: a
    /// select never has one.
    pub open spec fn enabled_selectedcontent(self, select: Handle) -> Option<Handle> {
        if has_attribute(self.data(select)->Element_attrs, "multiple"@) {
            None
        } else if self.is_named(select, "selectedcontent"@) && self.children(select).len() > 0 {
            Some(self.children(select)[0])
        } else {
            None
        }
    }

    /// The handles that copies of what hangs under `hs` get, where the nodes of the copies take
    /// the places from `lo` on: one tree after the other, children before their parent.
    pub open spec fn copy_handles(self, hs: Seq<Handle>, lo: nat) -> Seq<Handle> {
        Seq::new(
            hs.len(),
            |i: int| Handle((lo + forest_size(self.forest(hs).take(i + 1)) - 1) as usize),
        )
    }

    /// Whether `other` holds, from place `lo` on, a copy of what hangs under `h`. The copy of a
    /// node has that node's data and that node's parent.
    #[verifier::opaque]
    pub open spec fn copied_at(self, other: DomView, h: Handle, lo: nat) -> bool
        decreases self.height(h),
        when self.wf() && self.finite_depth() && self.valid(h)
    {
        let top = lo + tree_size(self.tree(h)) - 1;
        &&& top < other.nodes.len()
        &&& other.nodes[top] == NodeView {
            parent: self.parent(h),
            children: self.copy_handles(self.children(h), lo),
            data: self.data(h),
            dropped: false,
        }
        &&& forall|i: int|
            0 <= i < self.children(h).len() ==> self.copied_at(
                other,
                #[trigger] self.children(h)[i],
                lo + forest_size(self.forest(self.children(h)).take(i)),
            )
    }

    /// Whether this document has the nodes of `earlier`, unchanged, and maybe more after them.
    pub open spec fn extends(self, earlier: DomView) -> bool {
        &&& earlier.nodes.len() <= self.nodes.len()
        &&& self == DomView { nodes: self.nodes, ..earlier }
        &&& forall|i: int|
            0 <= i < earlier.nodes.len() ==> #[trigger] self.nodes[i] == earlier.nodes[i]
    }

    /// The children of each node from place `lo` on stand before that node, from `lo` on.
    pub open spec fn copies_from(self, lo: nat) -> bool {
        forall|j: int, i: int|
            lo <= j < self.nodes.len() && 0 <= i < self.nodes[j].children.len() ==> lo
                <= (#[trigger] self.nodes[j].children[i]).0 < j
    }

    /// Whether `other` is this document with copies of what hangs under the children of `option`
    /// added to it, which are the children of `selectedcontent` now.
    pub open spec fn option_cloned(
        self,
        other: DomView,
        option: Handle,
        selectedcontent: Handle,
    ) -> bool {
        let lo = self.nodes.len();
        let hs = self.children(option);
        &&& other == DomView { nodes: other.nodes, ..self }
        &&& other.nodes.len() == lo + forest_size(self.forest(hs))
        &&& forall|h: Handle|
            self.valid(h) && h != selectedcontent ==> #[trigger] other.node(h) == self.node(h)
        &&& other.node(selectedcontent) == NodeView {
            children: self.copy_handles(hs, lo),
            ..self.node(selectedcontent)
        }
        &&& forall|i: int|
            0 <= i < hs.len() ==> self.copied_at(
                other,
                #[trigger] hs[i],
                lo + forest_size(self.forest(hs).take(i)),
            )
    }

    /// The template contents of `h`.
    pub open spec fn template(self, h: Handle) -> Option<Handle> {
        match self.data(h) {
            DataView::Element { template_contents, .. } => template_contents,
            _ => None,
        }
    }

    /// Whether `p` holds a handle of `x`: as a child, or as its template contents.
    pub open spec fn owns(self, p: Handle, x: Handle) -> bool {
        self.children(p).contains(x) || self.template(p) == Some(x)
    }

    /// Whether every node of `path` but the first is held by the one before.
    pub open spec fn owned_along(self, path: Seq<Handle>) -> bool {
        forall|i: int|
            0 <= i < path.len() - 1 ==> self.valid(#[trigger] path[i]) && self.owns(
                path[i],
                path[i + 1],
            )
    }

    /// Whether `x` is one of `from`, or held under one of them.
    pub open spec fn owned_from(self, from: Seq<Handle>, x: Handle) -> bool {
        exists|path: Seq<Handle>|
            {
                &&& path.len() > 0
                &&& from.contains(path.first())
                &&& path.last() == x
                &&& #[trigger] self.owned_along(path)
            }
    }

    /// Whether something other than `h` holds `x`, where `held` are the nodes of which there are
    /// handles outside of the document.
    pub open spec fn held_besides(self, h: Handle, held: Seq<Handle>, x: Handle) -> bool {
        ||| held.contains(x)
        ||| x == self.document
        ||| exists|p: Handle| self.valid(p) && p != h && #[trigger] self.owns(p, x)
    }

    /// What is let go of when `h` is dropped: its children, and its template contents unless
    /// something else holds them.
    pub open spec fn let_go(self, h: Handle, held: Seq<Handle>) -> Seq<Handle> {
        match self.template(h) {
            Some(t) => if self.held_besides(h, held, t) {
                self.children(h)
            } else {
                self.children(h).push(t)
            },
            None => self.children(h),
        }
    }

    /// Whether something that is not taken apart when `h` is dropped holds `x`.
    pub open spec fn held_outside(self, h: Handle, held: Seq<Handle>, x: Handle) -> bool {
        ||| held.contains(x)
        ||| x == self.document
        ||| exists|p: Handle|
            {
                &&& self.valid(p)
                &&& p != h
                &&& !self.owned_from(self.let_go(h, held), p)
                &&& #[trigger] self.owns(p, x)
            }
    }

    /// Whether nothing holds `h`, so that it is dropped.
    pub open spec fn unheld(self, h: Handle, held: Seq<Handle>) -> bool {
        &&& !held.contains(h)
        &&& h != self.document
        &&& forall|p: Handle| self.valid(p) ==> !(#[trigger] self.owns(p, h))
    }

    // ---- writing ----

    pub open spec fn set_node(self, h: Handle, node: NodeView) -> DomView {
        DomView { nodes: self.nodes.update(h.0 as int, node), ..self }
    }

    pub open spec fn set_parent(self, h: Handle, parent: Option<Handle>) -> DomView {
        self.set_node(h, NodeView { parent, ..self.node(h) })
    }

    pub open spec fn set_children(self, h: Handle, children: Seq<Handle>) -> DomView {
        self.set_node(h, NodeView { children, ..self.node(h) })
    }

    pub open spec fn set_data(self, h: Handle, data: DataView) -> DomView {
        self.set_node(h, NodeView { data, ..self.node(h) })
    }

    /// The handle that the next node will get.
    pub open spec fn next_handle(self) -> Handle {
        Handle(self.nodes.len() as usize)
    }

    /// The document with one more node, under [`DomView::next_handle`].
    pub open spec fn add_node(self, node: NodeView) -> DomView {
        DomView { nodes: self.nodes.push(node), ..self }
    }

    /// `child` becomes the last child of `parent`.
    pub open spec fn attach(self, parent: Handle, child: Handle) -> DomView {
        let d = self.set_parent(child, Some(parent));
        d.set_children(parent, d.children(parent).push(child))
    }

    /// `child` becomes the child of `parent` at position `i`.
    pub open spec fn attach_at(self, parent: Handle, i: int, child: Handle) -> DomView {
        let d = self.set_parent(child, Some(parent));
        d.set_children(parent, d.children(parent).insert(i, child))
    }

    /// Where `h` first occurs among the children of `parent`.
    pub open spec fn position(self, parent: Handle, h: Handle) -> int {
        choose|i: int|
            {
                &&& 0 <= i < self.children(parent).len()
                &&& self.children(parent)[i] == h
                &&& forall|j: int| 0 <= j < i ==> self.children(parent)[j] != h
            }
    }

    /// `h` leaves the children of its parent, if it has one, and is without a parent.
    pub open spec fn detach(self, h: Handle) -> DomView {
        match self.parent(h) {
            Some(p) => self.set_children(p, self.children(p).remove(self.position(p, h))).set_parent(
                h,
                None,
            ),
            None => self,
        }
    }

    /// `text` is added at the end of the text node `h`.
    pub open spec fn append_text(self, h: Handle, text: Seq<char>) -> DomView {
        self.set_data(h, DataView::Text { contents: self.data(h)->Text_contents + text })
    }

    /// Whether `parent` has a last child that is a text node.
    pub open spec fn ends_in_text(self, parent: Handle) -> bool {
        &&& self.children(parent).len() > 0
        &&& self.is_text(self.children(parent).last())
    }

    /// `child` comes after the last child of `parent`; a text joins a text node that stands there.
    pub open spec fn append(self, parent: Handle, child: NodeOrText) -> DomView {
        match child {
            NodeOrText::AppendNode(node) => self.attach(parent, node),
            NodeOrText::AppendText(text) => if self.ends_in_text(parent) {
                self.append_text(self.children(parent).last(), text@)
            } else {
                self.add_node(detached(DataView::Text { contents: text@ })).attach(
                    parent,
                    self.next_handle(),
                )
            },
        }
    }

    /// `child` goes where `sibling` stands among the children of its parent; a text joins a text
    /// node that stands just before. A node first leaves the place that it has; the position is
    /// the one that `sibling` had before that.
    pub open spec fn append_before_sibling(self, sibling: Handle, child: NodeOrText) -> DomView {
        let parent = self.parent(sibling)->0;
        let i = self.position(parent, sibling);
        match child {
            NodeOrText::AppendNode(node) => self.detach(node).attach_at(parent, i, node),
            NodeOrText::AppendText(text) => if i > 0 && self.is_text(self.children(parent)[i - 1]) {
                self.append_text(self.children(parent)[i - 1], text@)
            } else {
                self.add_node(detached(DataView::Text { contents: text@ })).attach_at(
                    parent,
                    i,
                    self.next_handle(),
                )
            },
        }
    }

    /// Every child of `node` becomes a child of `new_parent`, after those that it has.
    pub open spec fn reparent_children(self, node: Handle, new_parent: Handle) -> DomView {
        DomView {
            nodes: Seq::new(
                self.nodes.len(),
                |i: int|
                    NodeView {
                        parent: if self.children(node).contains(Handle(i as usize)) {
                            Some(new_parent)
                        } else {
                            self.nodes[i].parent
                        },
                        children: if i == node.0 {
                            Seq::empty()
                        } else if i == new_parent.0 {
                            self.nodes[i].children + self.children(node)
                        } else {
                            self.nodes[i].children
                        },
                        data: self.nodes[i].data,
                        dropped: self.nodes[i].dropped,
                    },
            ),
            ..self
        }
    }

    /// The last handle of `h` is given up, where `held` are the nodes of which there are handles
    /// outside of the document. `h` is dropped and loses its children and its template contents.
    /// Whatever was held under it loses its own, and is dropped too unless something else holds it.
    pub open spec fn drop_node(self, h: Handle, held: Seq<Handle>) -> DomView {
        DomView {
            nodes: Seq::new(
                self.nodes.len(),
                |i: int|
                    if i == h.0 {
                        emptied(self.nodes[i], true)
                    } else if self.owned_from(self.let_go(h, held), Handle(i as usize)) {
                        emptied(self.nodes[i], !self.held_outside(h, held, Handle(i as usize)))
                    } else {
                        self.nodes[i]
                    },
            ),
            ..self
        }
    }

    /// The handles in a list are given up, one after the other: a node that nothing else holds is
    /// dropped.
    pub open spec fn drop_unheld(self, hs: Seq<Handle>, held: Seq<Handle>) -> DomView
        decreases hs.len(),
    {
        if hs.len() == 0 {
            self
        } else {
            let h = hs.first();
            (if self.unheld(h, held) {
                self.drop_node(h, held)
            } else {
                self
            }).drop_unheld(hs.drop_first(), held)
        }
    }

    /// The element `h` gets those of `attrs` whose name none of its attributes has.
    pub open spec fn add_attrs_if_missing(self, h: Handle, attrs: Seq<AttributeView>) -> DomView {
        self.set_data(
            h,
            match self.data(h) {
                DataView::Element {
                    name,
                    attrs: existing,
                    template_contents,
                    mathml_annotation_xml_integration_point,
                } => DataView::Element {
                    name,
                    attrs: existing + missing_attributes(existing, attrs),
                    template_contents,
                    mathml_annotation_xml_integration_point,
                },
                other => other,
            },
        )
    }
}

/// `node` without its children and its template contents, and dropped if `dropped`.
pub open spec fn emptied(node: NodeView, dropped: bool) -> NodeView {
    NodeView {
        parent: node.parent,
        children: Seq::empty(),
        data: match node.data {
            DataView::Element {
                name,
                attrs,
                template_contents: _,
                mathml_annotation_xml_integration_point,
            } => DataView::Element {
                name,
                attrs,
                template_contents: None,
                mathml_annotation_xml_integration_point,
            },
            other => other,
        },
        dropped: node.dropped || dropped,
    }
}

/// Those of `attrs` whose name none of `existing` has, in their order.
pub open spec fn missing_attributes(
    existing: Seq<AttributeView>,
    attrs: Seq<AttributeView>,
) -> Seq<AttributeView> {
    attrs.filter(|a: AttributeView| !has_qualified_attribute(existing, a.name))
}

} // verus!
