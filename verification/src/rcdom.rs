//! A document tree that an HTML parser builds node by node.
//!
//! The nodes live in one arena and name one another by [`Handle`]. A node whose last handle is given
//! up is dropped by [`RcDom::drop_node`]; its place in the arena is not used again.

use crate::interface::{
    attribute_views, clone_attributes, contains_qualified_attribute, has_qualified_attribute,
    Attribute, AttributeView, ElementFlags, Handle, NodeOrText, QualName, QuirksMode,
};
use crate::lemmas::{
    lemma_add_node_wf, lemma_attach_at_wf, lemma_attach_is_attach_at, lemma_detach_wf,
    lemma_position, lemma_reparent_children_wf, lemma_same_nodes_wf, lemma_set_node_wf,
};
use crate::model::{detached, DataView, DomView, NodeView};
use vstd::prelude::*;

verus! {

/// What a node is.
#[allow(inconsistent_fields)]
#[derive(Debug)]
pub enum NodeData {
    Document,
    Doctype { name: String, public_id: String, system_id: String },
    Text { contents: String },
    Comment { contents: String },
    Element {
        name: QualName,
        attrs: Vec<Attribute>,
        template_contents: Option<Handle>,
        mathml_annotation_xml_integration_point: bool,
    },
    ProcessingInstruction { target: String, contents: String },
}

impl View for NodeData {
    type V = DataView;

    open spec fn view(&self) -> DataView {
        match self {
            NodeData::Document => DataView::Document,
            NodeData::Doctype { name, public_id, system_id } => DataView::Doctype {
                name: name@,
                public_id: public_id@,
                system_id: system_id@,
            },
            NodeData::Text { contents } => DataView::Text { contents: contents@ },
            NodeData::Comment { contents } => DataView::Comment { contents: contents@ },
            NodeData::Element {
                name,
                attrs,
                template_contents,
                mathml_annotation_xml_integration_point,
            } => DataView::Element {
                name: name@,
                attrs: attribute_views(attrs@),
                template_contents: *template_contents,
                mathml_annotation_xml_integration_point: *mathml_annotation_xml_integration_point,
            },
            NodeData::ProcessingInstruction { target, contents } => DataView::ProcessingInstruction {
                target: target@,
                contents: contents@,
            },
        }
    }
}

impl Clone for NodeData {
    fn clone(&self) -> (r: NodeData)
        ensures
            r@ == self@,
    {
        match self {
            NodeData::Document => NodeData::Document,
            NodeData::Doctype { name, public_id, system_id } => NodeData::Doctype {
                name: name.clone(),
                public_id: public_id.clone(),
                system_id: system_id.clone(),
            },
            NodeData::Text { contents } => NodeData::Text { contents: contents.clone() },
            NodeData::Comment { contents } => NodeData::Comment { contents: contents.clone() },
            NodeData::Element {
                name,
                attrs,
                template_contents,
                mathml_annotation_xml_integration_point,
            } => NodeData::Element {
                name: name.clone(),
                attrs: clone_attributes(attrs),
                template_contents: *template_contents,
                mathml_annotation_xml_integration_point: *mathml_annotation_xml_integration_point,
            },
            NodeData::ProcessingInstruction { target, contents } => {
                NodeData::ProcessingInstruction {
                    target: target.clone(),
                    contents: contents.clone(),
                }
            },
        }
    }
}

/// A node: what it is, and its place in the document.
pub struct Node {
    pub parent: Option<Handle>,
    pub children: Vec<Handle>,
    pub data: NodeData,
    /// Whether the last handle of the node has been given up.
    pub dropped: bool,
}

impl View for Node {
    type V = NodeView;

    open spec fn view(&self) -> NodeView {
        NodeView {
            parent: self.parent,
            children: self.children@,
            data: self.data@,
            dropped: self.dropped,
        }
    }
}

impl Node {
    /// A node without a parent and without children.
    pub fn new(data: NodeData) -> (r: Node)
        ensures
            r@ == detached(data@),
    {
        Node { parent: None, children: Vec::new(), data, dropped: false }
    }
}

/// A document.
pub struct RcDom {
    /// Every node that was ever created for this document.
    pub nodes: Vec<Node>,
    /// The `Document` node.
    pub document: Handle,
    /// The messages of the errors that occurred during parsing.
    pub errors: Vec<String>,
    pub quirks_mode: QuirksMode,
}

impl View for RcDom {
    type V = DomView;

    open spec fn view(&self) -> DomView {
        DomView {
            nodes: Seq::new(self.nodes@.len(), |i: int| self.nodes@[i]@),
            document: self.document,
            errors: Seq::new(self.errors@.len(), |i: int| self.errors@[i]@),
            quirks_mode: self.quirks_mode,
        }
    }
}

impl Default for RcDom {
    fn default() -> (r: RcDom)
        ensures
            r@ == (DomView {
                nodes: seq![detached(DataView::Document)],
                document: Handle(0),
                errors: Seq::empty(),
                quirks_mode: QuirksMode::NoQuirks,
            }),
            r@.wf(),
            r@.is_tree(),
    {
        let mut nodes: Vec<Node> = Vec::new();
        nodes.push(Node::new(NodeData::Document));
        let r = RcDom {
            nodes,
            document: Handle(0),
            errors: Vec::new(),
            quirks_mode: QuirksMode::NoQuirks,
        };
        proof {
            let rank = |h: Handle| 0nat;
            assert(r@.ranked(rank));
        }
        r
    }
}

impl RcDom {
    // ---- reading ----

    /// How many nodes were created for this document.
    pub fn node_count(&self) -> (r: usize)
        ensures
            r == self@.nodes.len(),
    {
        self.nodes.len()
    }

    /// The parent of `h`.
    pub fn parent(&self, h: Handle) -> (r: Option<Handle>)
        requires
            self@.valid(h),
        ensures
            r == self@.parent(h),
    {
        self.nodes[h.0].parent
    }

    /// The parent of `h`, if that has not been dropped.
    pub fn live_parent(&self, h: Handle) -> (r: Option<Handle>)
        requires
            self@.wf(),
            self@.valid(h),
        ensures
            r == self@.live_parent(h),
    {
        assert(self@.node_wf(self@.node(h)));
        match self.nodes[h.0].parent {
            Some(p) => if self.nodes[p.0].dropped {
                None
            } else {
                Some(p)
            },
            None => None,
        }
    }

    // ---- primitive steps ----

    /// Adds a node without a parent and without children.
    fn add_node(&mut self, data: NodeData) -> (r: Handle)
        ensures
            r == old(self)@.next_handle(),
            final(self)@ == old(self)@.add_node(detached(data@)),
            final(self)@.nodes.len() <= usize::MAX,
    {
        let h = Handle(self.nodes.len());
        self.nodes.push(Node::new(data));
        assert(self@.nodes =~= old(self)@.nodes.push(detached(data@)));
        assert(self.nodes.len() <= usize::MAX);
        h
    }

    fn set_parent(&mut self, h: Handle, parent: Option<Handle>)
        requires
            old(self)@.valid(h),
        ensures
            final(self)@ == old(self)@.set_parent(h, parent),
    {
        self.nodes[h.0].parent = parent;
        assert(self@ =~= old(self)@.set_parent(h, parent));
    }

    /// Makes `child` the last child of `new_parent`.
    fn append_node(&mut self, new_parent: Handle, child: Handle)
        requires
            old(self)@.wf(),
            old(self)@.valid(new_parent),
            old(self)@.valid(child),
            old(self)@.parent(child) is None,
        ensures
            final(self)@ == old(self)@.attach(new_parent, child),
            final(self)@.wf(),
    {
        self.set_parent(child, Some(new_parent));
        let ghost d = self@;
        assert(d.valid(new_parent));
        self.nodes[new_parent.0].children.push(child);
        assert(self@ =~= d.set_children(new_parent, d.children(new_parent).push(child)));
        proof {
            lemma_attach_is_attach_at(old(self)@, new_parent, child);
            lemma_attach_at_wf(
                old(self)@,
                new_parent,
                old(self)@.children(new_parent).len() as int,
                child,
            );
        }
    }

    /// The parent of `target`, and where `target` first occurs among that parent's children.
    pub fn get_parent_and_index(&self, target: Handle) -> (r: Option<(Handle, usize)>)
        requires
            self@.wf(),
            self@.valid(target),
            self@.locatable(target),
        ensures
            match r {
                Some((parent, i)) => {
                    &&& self@.parent(target) == Some(parent)
                    &&& self@.valid(parent)
                    &&& i < self@.children(parent).len()
                    &&& self@.children(parent)[i as int] == target
                    &&& i == self@.position(parent, target)
                },
                None => self@.parent(target) is None,
            },
    {
        match self.nodes[target.0].parent {
            None => None,
            Some(parent) => {
                assert(self@.node_wf(self@.node(target)));
                let ghost siblings = self@.children(parent);
                let count = self.nodes[parent.0].children.len();
                let mut i: usize = 0;
                while i < count && self.nodes[parent.0].children[i] != target
                    invariant
                        self@.valid(parent),
                        siblings == self@.children(parent),
                        count == siblings.len(),
                        i <= count,
                        forall|j: int| 0 <= j < i ==> siblings[j] != target,
                    decreases count - i,
                {
                    i += 1;
                }
                assert(siblings.contains(target));
                assert(self@.position(parent, target) == i);
                Some((parent, i))
            },
        }
    }

    /// Adds `text` at the end of `prev`, if that is a text node; says whether it is.
    fn append_to_existing_text(&mut self, prev: Handle, text: &str) -> (r: bool)
        requires
            old(self)@.valid(prev),
        ensures
            r == old(self)@.is_text(prev),
            final(self)@ == if r {
                old(self)@.append_text(prev, text@)
            } else {
                old(self)@
            },
    {
        match &mut self.nodes[prev.0].data {
            NodeData::Text { contents } => {
                contents.append(text);
            },
            _ => {
                return false;
            },
        }
        assert(self@ =~= old(self)@.append_text(prev, text@));
        true
    }

    /// Takes the child at position `i` out of the children of `parent`.
    fn remove_child(&mut self, parent: Handle, i: usize)
        requires
            old(self)@.valid(parent),
            i < old(self)@.children(parent).len(),
        ensures
            final(self)@ == old(self)@.set_children(
                parent,
                old(self)@.children(parent).remove(i as int),
            ),
    {
        let ghost children = self@.children(parent).remove(i as int);
        self.nodes[parent.0].children.remove(i);
        assert(self@ =~= old(self)@.set_children(parent, children));
    }

    /// Takes `target` out of the children of its parent, if it has one.
    pub fn remove_from_parent(&mut self, target: Handle)
        requires
            old(self)@.wf(),
            old(self)@.valid(target),
            old(self)@.locatable(target),
        ensures
            final(self)@ == old(self)@.detach(target),
            final(self)@.wf(),
    {
        proof {
            lemma_detach_wf(self@, target);
        }
        if let Some((parent, i)) = self.get_parent_and_index(target) {
            self.remove_child(parent, i);
            assert(self@.valid(target));
            self.set_parent(target, None);
        }
    }

    /// Makes `child` the child of `parent` at position `i`.
    fn insert_node(&mut self, parent: Handle, i: usize, child: Handle)
        requires
            old(self)@.wf(),
            old(self)@.valid(parent),
            old(self)@.valid(child),
            i <= old(self)@.children(parent).len(),
        ensures
            final(self)@ == old(self)@.attach_at(parent, i as int, child),
            final(self)@.wf(),
    {
        proof {
            lemma_attach_at_wf(self@, parent, i as int, child);
        }
        self.set_parent(child, Some(parent));
        let ghost d = self@;
        assert(d.valid(parent));
        self.nodes[parent.0].children.insert(i, child);
        assert(self@ =~= d.set_children(parent, d.children(parent).insert(i as int, child)));
    }

    // ---- tree construction ----

    /// The finished document.
    pub fn finish(self) -> (r: RcDom)
        ensures
            r == self,
    {
        self
    }

    /// Records a parse error.
    pub fn parse_error(&mut self, msg: String)
        ensures
            final(self)@ == (DomView { errors: old(self)@.errors.push(msg@), ..old(self)@ }),
            old(self)@.wf() ==> final(self)@.wf(),
    {
        self.errors.push(msg);
        assert(self@.errors =~= old(self)@.errors.push(msg@));
        assert(self@.nodes =~= old(self)@.nodes);
        proof {
            lemma_same_nodes_wf(old(self)@, self@);
        }
    }

    /// The `Document` node.
    pub fn get_document(&self) -> (r: Handle)
        ensures
            r == self@.document,
    {
        self.document
    }

    /// The template contents of the template element `target`.
    pub fn get_template_contents(&self, target: Handle) -> (r: Handle)
        requires
            self@.valid(target),
            self@.is_element(target),
            self@.data(target)->template_contents is Some,
        ensures
            self@.data(target)->template_contents == Some(r),
    {
        match &self.nodes[target.0].data {
            NodeData::Element { template_contents: Some(t), .. } => *t,
            _ => vstd::pervasive::unreached(),
        }
    }

    /// Sets the quirks mode.
    pub fn set_quirks_mode(&mut self, mode: QuirksMode)
        ensures
            final(self)@ == (DomView { quirks_mode: mode, ..old(self)@ }),
            old(self)@.wf() ==> final(self)@.wf(),
    {
        self.quirks_mode = mode;
        assert(self@.nodes =~= old(self)@.nodes);
        assert(self@.errors =~= old(self)@.errors);
        proof {
            lemma_same_nodes_wf(old(self)@, self@);
        }
    }

    /// Whether two handles name the same node.
    pub fn same_node(&self, x: Handle, y: Handle) -> (r: bool)
        ensures
            r == (x == y),
    {
        x == y
    }

    /// The name of the element `target`.
    pub fn elem_name(&self, target: Handle) -> (r: &QualName)
        requires
            self@.valid(target),
            self@.is_element(target),
        ensures
            r@ == self@.data(target)->Element_name,
    {
        match &self.nodes[target.0].data {
            NodeData::Element { name, .. } => name,
            _ => vstd::pervasive::unreached(),
        }
    }

    /// Creates an element; one that is to be a template gets a fresh document as its template
    /// contents.
    pub fn create_element(
        &mut self,
        name: QualName,
        attrs: Vec<Attribute>,
        flags: ElementFlags,
    ) -> (r: Handle)
        requires
            old(self)@.wf(),
        ensures
            final(self)@.wf(),
            ({
                let d = if flags.template {
                    old(self)@.add_node(detached(DataView::Document))
                } else {
                    old(self)@
                };
                &&& r == d.next_handle()
                &&& final(self)@ == d.add_node(
                    detached(
                        DataView::Element {
                            name: name@,
                            attrs: attribute_views(attrs@),
                            template_contents: if flags.template {
                                Some(old(self)@.next_handle())
                            } else {
                                None
                            },
                            mathml_annotation_xml_integration_point:
                                flags.mathml_annotation_xml_integration_point,
                        },
                    ),
                )
            }),
    {
        let template_contents = if flags.template {
            Some(self.add_node(NodeData::Document))
        } else {
            None
        };
        let ghost d = self@;
        proof {
            if flags.template {
                lemma_add_node_wf(old(self)@, detached(DataView::Document));
            }
        }
        let r = self.add_node(
            NodeData::Element {
                name,
                attrs,
                template_contents,
                mathml_annotation_xml_integration_point: flags.mathml_annotation_xml_integration_point,
            },
        );
        proof {
            lemma_add_node_wf(d, self@.nodes.last());
        }
        r
    }

    /// Creates a comment.
    pub fn create_comment(&mut self, text: String) -> (r: Handle)
        requires
            old(self)@.wf(),
        ensures
            final(self)@.wf(),
            r == old(self)@.next_handle(),
            final(self)@ == old(self)@.add_node(detached(DataView::Comment { contents: text@ })),
    {
        let r = self.add_node(NodeData::Comment { contents: text });
        proof {
            lemma_add_node_wf(old(self)@, self@.nodes.last());
        }
        r
    }

    /// Creates a processing instruction.
    pub fn create_pi(&mut self, target: String, data: String) -> (r: Handle)
        requires
            old(self)@.wf(),
        ensures
            final(self)@.wf(),
            r == old(self)@.next_handle(),
            final(self)@ == old(self)@.add_node(
                detached(DataView::ProcessingInstruction { target: target@, contents: data@ }),
            ),
    {
        let r = self.add_node(NodeData::ProcessingInstruction { target, contents: data });
        proof {
            lemma_add_node_wf(old(self)@, self@.nodes.last());
        }
        r
    }

    fn create_text(&mut self, text: String) -> (r: Handle)
        requires
            old(self)@.wf(),
        ensures
            final(self)@.wf(),
            r == old(self)@.next_handle(),
            final(self)@ == old(self)@.add_node(detached(DataView::Text { contents: text@ })),
    {
        let r = self.add_node(NodeData::Text { contents: text });
        proof {
            lemma_add_node_wf(old(self)@, self@.nodes.last());
        }
        r
    }

    /// Puts `child` after the last child of `parent`. A text is added to the text node that stands
    /// there, if one does.
    pub fn append(&mut self, parent: Handle, child: NodeOrText)
        requires
            old(self)@.wf(),
            old(self)@.valid(parent),
            child matches NodeOrText::AppendNode(node) ==> old(self)@.valid(node) && old(
                self,
            )@.parent(node) is None,
        ensures
            final(self)@ == old(self)@.append(parent, child),
            final(self)@.wf(),
    {
        assert(self@.node_wf(self@.node(parent)));
        let node = match child {
            NodeOrText::AppendNode(node) => node,
            NodeOrText::AppendText(text) => {
                let count = self.nodes[parent.0].children.len();
                if count > 0 {
                    let last = self.nodes[parent.0].children[count - 1];
                    assert(last == self@.children(parent).last());
                    if self.append_to_existing_text(last, text.as_str()) {
                        proof {
                            lemma_set_node_wf(old(self)@, last, self@.node(last));
                        }
                        return;
                    }
                }
                self.create_text(text)
            },
        };
        self.append_node(parent, node);
    }

    /// Puts `child` where `sibling` stands. A text is added to the text node that stands just before,
    /// if one does. A node first leaves the place that it has; the place of `sibling` is the one
    /// that it had before that, so a node that stood before `sibling` under the same parent comes to
    /// stand after it.
    pub fn append_before_sibling(&mut self, sibling: Handle, child: NodeOrText)
        requires
            old(self)@.wf(),
            old(self)@.valid(sibling),
            old(self)@.parent(sibling) is Some,
            old(self)@.locatable(sibling),
            child matches NodeOrText::AppendNode(node) ==> old(self)@.valid(node) && old(
                self,
            )@.locatable(node),
        ensures
            final(self)@ == old(self)@.append_before_sibling(sibling, child),
            final(self)@.wf(),
    {
        let (parent, i) = match self.get_parent_and_index(sibling) {
            Some(found) => found,
            None => vstd::pervasive::unreached(),
        };
        assert(self@.node_wf(self@.node(parent)));
        let node = match child {
            NodeOrText::AppendNode(node) => {
                proof {
                    if self@.parent(node) is Some {
                        lemma_position(self@, self@.parent(node)->0, node);
                    }
                }
                self.remove_from_parent(node);
                node
            },
            NodeOrText::AppendText(text) => {
                if i > 0 {
                    let prev = self.nodes[parent.0].children[i - 1];
                    assert(prev == self@.children(parent)[i - 1]);
                    if self.append_to_existing_text(prev, text.as_str()) {
                        proof {
                            lemma_set_node_wf(old(self)@, prev, self@.node(prev));
                        }
                        return;
                    }
                }
                self.create_text(text)
            },
        };
        self.insert_node(parent, i, node);
    }

    /// Puts `child` before `element` if that has a parent, and else after the last child of
    /// `prev_element`.
    pub fn append_based_on_parent_node(
        &mut self,
        element: Handle,
        prev_element: Handle,
        child: NodeOrText,
    )
        requires
            old(self)@.wf(),
            old(self)@.valid(element),
            old(self)@.valid(prev_element),
            old(self)@.locatable(element),
            child matches NodeOrText::AppendNode(node) ==> {
                &&& old(self)@.valid(node)
                &&& old(self)@.parent(element) is Some ==> old(self)@.locatable(node)
                &&& old(self)@.parent(element) is None ==> old(self)@.parent(node) is None
            },
        ensures
            final(self)@ == if old(self)@.parent(element) is Some {
                old(self)@.append_before_sibling(element, child)
            } else {
                old(self)@.append(prev_element, child)
            },
            final(self)@.wf(),
    {
        if self.nodes[element.0].parent.is_some() {
            self.append_before_sibling(element, child);
        } else {
            self.append(prev_element, child);
        }
    }

    /// Makes a new doctype the last child of the `Document` node.
    pub fn append_doctype_to_document(
        &mut self,
        name: String,
        public_id: String,
        system_id: String,
    )
        requires
            old(self)@.wf(),
        ensures
            final(self)@ == old(self)@.add_node(
                detached(
                    DataView::Doctype {
                        name: name@,
                        public_id: public_id@,
                        system_id: system_id@,
                    },
                ),
            ).attach(old(self)@.document, old(self)@.next_handle()),
            final(self)@.wf(),
    {
        let doctype = self.add_node(NodeData::Doctype { name, public_id, system_id });
        proof {
            lemma_add_node_wf(old(self)@, self@.nodes.last());
        }
        self.append_node(self.document, doctype);
    }

    /// Adds to the element `target` those of `attrs` whose name none of its attributes has.
    pub fn add_attrs_if_missing(&mut self, target: Handle, attrs: Vec<Attribute>)
        requires
            old(self)@.wf(),
            old(self)@.valid(target),
            old(self)@.is_element(target),
        ensures
            final(self)@ == old(self)@.add_attrs_if_missing(target, attribute_views(attrs@)),
            final(self)@.wf(),
    {
        let ghost existing = self@.data(target)->Element_attrs;
        let ghost wanted = attribute_views(attrs@);
        let ghost keep = |a: AttributeView| !has_qualified_attribute(existing, a.name);
        let mut missing: Vec<Attribute> = Vec::new();
        match &self.nodes[target.0].data {
            NodeData::Element { attrs: present, .. } => {
                for i in 0..attrs.len()
                    invariant
                        wanted == attribute_views(attrs@),
                        existing == attribute_views(present@),
                        keep == (|a: AttributeView| !has_qualified_attribute(existing, a.name)),
                        attribute_views(missing@) =~= wanted.take(i as int).filter(keep),
                {
                    assert(wanted.take(i + 1).drop_last() =~= wanted.take(i as int));
                    assert(wanted.take(i + 1).last() == wanted[i as int]);
                    reveal(Seq::filter);
                    if !contains_qualified_attribute(present, &attrs[i].name) {
                        let ghost before = missing@;
                        missing.push(attrs[i].clone());
                        assert(attribute_views(missing@) =~= attribute_views(before).push(
                            wanted[i as int],
                        ));
                    }
                }
            },
            _ => {},
        }
        assert(wanted.take(attrs.len() as int) =~= wanted);
        assert(attribute_views(missing@) == crate::model::missing_attributes(existing, wanted));
        let ghost added = attribute_views(missing@);
        match &mut self.nodes[target.0].data {
            NodeData::Element { attrs: present, .. } => {
                present.append(&mut missing);
                assert(attribute_views(present@) =~= existing + added);
            },
            _ => {},
        }
        assert(self@ =~= old(self)@.add_attrs_if_missing(target, wanted));
        proof {
            assert(old(self)@.node_wf(old(self)@.node(target)));
            lemma_set_node_wf(old(self)@, target, self@.node(target));
        }
    }

    /// Whether the element `target` was created as a MathML `annotation-xml` integration point.
    pub fn is_mathml_annotation_xml_integration_point(&self, target: Handle) -> (r: bool)
        requires
            self@.valid(target),
            self@.is_element(target),
        ensures
            r == self@.data(target)->mathml_annotation_xml_integration_point,
    {
        match &self.nodes[target.0].data {
            NodeData::Element { mathml_annotation_xml_integration_point, .. } => {
                *mathml_annotation_xml_integration_point
            },
            _ => vstd::pervasive::unreached(),
        }
    }

    /// Makes every child of `node` a child of `new_parent`, after those that it has.
    pub fn reparent_children(&mut self, node: Handle, new_parent: Handle)
        requires
            old(self)@.wf(),
            old(self)@.valid(node),
            old(self)@.valid(new_parent),
            node != new_parent,
            old(self)@.children(node).no_duplicates(),
            forall|i: int|
                0 <= i < old(self)@.children(node).len() ==> old(self)@.parent(
                    #[trigger] old(self)@.children(node)[i],
                ) == Some(node),
        ensures
            final(self)@ == old(self)@.reparent_children(node, new_parent),
            final(self)@.wf(),
    {
        let ghost d = self@;
        assert(d.node_wf(d.node(node)));
        let mut moved: Vec<Handle> = Vec::new();
        std::mem::swap(&mut moved, &mut self.nodes[node.0].children);
        let ghost emptied = d.set_children(node, Seq::empty());
        assert(moved@ == d.children(node));
        assert(self@ =~= emptied);
        for k in 0..moved.len()
            invariant
                d.wf(),
                d.valid(node),
                moved@ == d.children(node),
                emptied == d.set_children(node, Seq::empty()),
                forall|i: int| 0 <= i < moved@.len() ==> d.valid(#[trigger] moved@[i]),
                self@ == (DomView { nodes: self@.nodes, ..d }),
                self@.nodes.len() == d.nodes.len(),
                forall|j: int|
                    0 <= j < d.nodes.len() ==> (#[trigger] self@.nodes[j]) == (NodeView {
                        parent: if moved@.take(k as int).contains(Handle(j as usize)) {
                            Some(new_parent)
                        } else {
                            d.nodes[j].parent
                        },
                        ..emptied.nodes[j]
                    }),
        {
            let ghost before = self@;
            let child = moved[k];
            assert(moved@.take(k + 1) =~= moved@.take(k as int).push(child));
            assert(d.valid(moved@[k as int]));
            self.set_parent(child, Some(new_parent));
            assert forall|j: int| 0 <= j < d.nodes.len() implies (#[trigger] self@.nodes[j]) == (
            NodeView {
                parent: if moved@.take(k + 1).contains(Handle(j as usize)) {
                    Some(new_parent)
                } else {
                    d.nodes[j].parent
                },
                ..emptied.nodes[j]
            }) by {
                assert(before.nodes[j].children == emptied.nodes[j].children);
                let h = Handle(j as usize);
                if h == child {
                    assert(moved@.take(k + 1)[k as int] == h);
                } else if moved@.take(k as int).contains(h) {
                    let m = choose|m: int| 0 <= m < k && moved@.take(k as int)[m] == h;
                    assert(moved@.take(k + 1)[m] == h);
                } else {
                    assert(!moved@.take(k + 1).contains(h));
                }
            }
        }
        assert(moved@.take(moved@.len() as int) =~= moved@);
        let ghost relinked = self@;
        assert(self@.valid(new_parent));
        self.nodes[new_parent.0].children.append(&mut moved);
        assert(self@ =~= relinked.set_children(
            new_parent,
            relinked.children(new_parent) + d.children(node),
        ));
        assert(self@ =~= d.reparent_children(node, new_parent));
        proof {
            lemma_reparent_children_wf(d, node, new_parent);
        }
    }
}

} // verus!
