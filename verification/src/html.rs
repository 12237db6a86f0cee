//! The HTML fragment that a node is written as.

use crate::calls::{
    all_writable, call_views, forest_calls, selected, tree_calls, CallView, SerializableHandle,
    SerializerCall, TraversalScope,
};
use crate::interface::{
    attribute_views, Attribute, AttributeView, Handle, NodeOrText, QualName, QualNameView,
};
use crate::laws::{law_append_keeps_tree, law_create_keeps_tree};
use crate::lemmas::{
    lemma_add_node_wf, lemma_attach_at_wf, lemma_attach_is_attach_at, lemma_child_does_not_reach,
    lemma_leaf_reaches, lemma_reaches_parent, lemma_same_below_same_tree, lemma_set_node_wf,
};
use crate::model::{detached, DataView, DomView, Tree};
use crate::rcdom::RcDom;
use html5ever::serialize::{HtmlSerializer, Serializer};
use html5ever::{LocalName, Namespace, Prefix};
use vstd::prelude::*;
use vstd::utf8::encode_utf8;

verus! {

// ---- what is written ----

/// Whether `ns` is the HTML namespace.
pub open spec fn is_html_namespace(ns: Seq<char>) -> bool {
    ns == "http://www.w3.org/1999/xhtml"@
}

/// Whether the HTML element `local` has no end tag.
pub open spec fn is_void_element(local: Seq<char>) -> bool {
    ||| local == "area"@
    ||| local == "base"@
    ||| local == "basefont"@
    ||| local == "bgsound"@
    ||| local == "br"@
    ||| local == "col"@
    ||| local == "embed"@
    ||| local == "frame"@
    ||| local == "hr"@
    ||| local == "img"@
    ||| local == "input"@
    ||| local == "keygen"@
    ||| local == "link"@
    ||| local == "meta"@
    ||| local == "param"@
    ||| local == "source"@
    ||| local == "track"@
    ||| local == "wbr"@
}

/// Whether text in the HTML element `local` is written as it is.
pub open spec fn is_raw_text_element(local: Seq<char>) -> bool {
    ||| local == "style"@
    ||| local == "script"@
    ||| local == "xmp"@
    ||| local == "iframe"@
    ||| local == "noembed"@
    ||| local == "noframes"@
    ||| local == "plaintext"@
    ||| local == "noscript"@
}

/// What a character of a text is written as, or of an attribute's value if `in_attribute`.
pub open spec fn escaped_char(c: char, in_attribute: bool) -> Seq<char> {
    if c == '&' {
        "&amp;"@
    } else if c == '\u{00A0}' {
        "&nbsp;"@
    } else if c == '"' && in_attribute {
        "&quot;"@
    } else if c == '<' {
        "&lt;"@
    } else if c == '>' {
        "&gt;"@
    } else {
        seq![c]
    }
}

/// What a text is written as, or an attribute's value if `in_attribute`.
pub open spec fn escaped(text: Seq<char>, in_attribute: bool) -> Seq<char>
    decreases text.len(),
{
    if text.len() == 0 {
        Seq::empty()
    } else {
        escaped(text.drop_last(), in_attribute) + escaped_char(text.last(), in_attribute)
    }
}

/// What stands before the local name of an attribute.
pub open spec fn attribute_prefix(name: QualNameView) -> Seq<char> {
    if name.ns == ""@ {
        ""@
    } else if name.ns == "http://www.w3.org/XML/1998/namespace"@ {
        "xml:"@
    } else if name.ns == "http://www.w3.org/2000/xmlns/"@ {
        if name.local == "xmlns"@ {
            ""@
        } else {
            "xmlns:"@
        }
    } else if name.ns == "http://www.w3.org/1999/xlink"@ {
        "xlink:"@
    } else {
        "unknown_namespace:"@
    }
}

/// The attributes of a start tag.
pub open spec fn attributes_html(attrs: Seq<AttributeView>) -> Seq<char>
    decreases attrs.len(),
{
    if attrs.len() == 0 {
        Seq::empty()
    } else {
        let attr = attrs.last();
        attributes_html(attrs.drop_last()) + " "@ + attribute_prefix(attr.name) + attr.name.local
            + "=\""@ + escaped(attr.value, true) + "\""@
    }
}

/// A start tag.
pub open spec fn start_tag(name: QualNameView, attrs: Seq<AttributeView>) -> Seq<char> {
    "<"@ + name.local + attributes_html(attrs) + ">"@
}

/// An end tag.
pub open spec fn end_tag(name: QualNameView) -> Seq<char> {
    "</"@ + name.local + ">"@
}

/// An element that a writer is in: its local name if it is an HTML element, and whether the tags
/// inside it are left out.
pub type OpenElement = (Option<Seq<char>>, bool);

/// What `name` is as an open element inside `outer`. No tag is written inside a void element.
pub open spec fn opened(outer: OpenElement, name: QualNameView) -> OpenElement {
    (
        if is_html_namespace(name.ns) {
            Some(name.local)
        } else {
            None
        },
        outer.1 || (is_html_namespace(name.ns) && is_void_element(name.local)),
    )
}

/// What a text inside `outer` is written as.
pub open spec fn text_html(outer: OpenElement, text: Seq<char>) -> Seq<char> {
    if outer.0 matches Some(local) && is_raw_text_element(local) {
        text
    } else {
        escaped(text, false)
    }
}

/// What a comment is written as.
pub open spec fn comment_html(text: Seq<char>) -> Seq<char> {
    "<!--"@ + text + "-->"@
}

/// What a doctype is written as.
pub open spec fn doctype_html(name: Seq<char>) -> Seq<char> {
    "<!DOCTYPE "@ + name + ">"@
}

/// What a processing instruction is written as.
pub open spec fn processing_instruction_html(target: Seq<char>, data: Seq<char>) -> Seq<char> {
    "<?"@ + target + " "@ + data + ">"@
}

/// What a tree inside `outer` is written as.
pub open spec fn tree_html(tree: Tree, outer: OpenElement) -> Seq<char>
    decreases tree,
{
    match tree.data {
        DataView::Element { name, attrs, .. } => {
            let inner = opened(outer, name);
            (if outer.1 {
                Seq::empty()
            } else {
                start_tag(name, attrs)
            }) + forest_html(tree.children, inner) + (if inner.1 {
                Seq::empty()
            } else {
                end_tag(name)
            })
        },
        DataView::Doctype { name, .. } => doctype_html(name),
        DataView::Text { contents } => text_html(outer, contents),
        DataView::Comment { contents } => comment_html(contents),
        DataView::ProcessingInstruction { target, contents } => processing_instruction_html(
            target,
            contents,
        ),
        DataView::Document => Seq::empty(),
    }
}

/// What trees inside `outer`, one after the other, are written as.
pub open spec fn forest_html(trees: Seq<Tree>, outer: OpenElement) -> Seq<char>
    decreases trees,
{
    if trees.len() == 0 {
        Seq::empty()
    } else {
        tree_html(trees.first(), outer) + forest_html(trees.drop_first(), outer)
    }
}

// ---- the writer ----

/// Writes HTML into memory. It holds html5ever's `HtmlSerializer` over a vector, made with the
/// default options.
#[verifier::external_body]
pub struct HtmlWriter {
    serializer: HtmlSerializer<Vec<u8>>,
}

/// What was written so far.
pub uninterp spec fn written(writer: HtmlWriter) -> Seq<char>;

/// The elements that were started and not ended, outermost first.
pub uninterp spec fn open_elements(writer: HtmlWriter) -> Seq<OpenElement>;

impl HtmlWriter {
    /// Calls `HtmlSerializer::new`, which has written nothing and stands in one nameless element.
    #[verifier::external_body]
    pub(crate) fn new() -> (r: HtmlWriter)
        ensures
            written(r) == Seq::<char>::empty(),
            open_elements(r) == seq![(None::<Seq<char>>, false)],
    {
        HtmlWriter { serializer: HtmlSerializer::new(Vec::new(), Default::default()) }
    }

    /// Calls `Serializer::start_elem` of `HtmlSerializer`, which writes the start tag, unless the
    /// tags inside the innermost open element are left out, and opens the element. It panics where
    /// no element is open.
    #[verifier::external_body]
    pub(crate) fn start_elem(&mut self, name: &QualName, attrs: &Vec<Attribute>)
        requires
            open_elements(*old(self)).len() > 0,
        ensures
            written(*final(self)) == written(*old(self)) + (if open_elements(*old(self)).last().1 {
                Seq::empty()
            } else {
                start_tag(name@, attribute_views(attrs@))
            }),
            open_elements(*final(self)) == open_elements(*old(self)).push(
                opened(open_elements(*old(self)).last(), name@),
            ),
    {
        let convert = |n: &QualName| {
            let prefix = n.prefix.as_deref().map(Prefix::from);
            html5ever::QualName::new(
                prefix,
                Namespace::from(n.ns.as_str()),
                LocalName::from(n.local.as_str()),
            )
        };
        let names: Vec<html5ever::QualName> = attrs.iter().map(|a| convert(&a.name)).collect();
        let pairs = names.iter().zip(attrs.iter()).map(|(n, a)| (n, a.value.as_str()));
        self.serializer.start_elem(convert(name), pairs).ok();
    }

    /// Calls `Serializer::end_elem` of `HtmlSerializer`, which closes the innermost open element
    /// and writes the end tag, unless the tags inside that element are left out. It panics where
    /// no element is open.
    #[verifier::external_body]
    pub(crate) fn end_elem(&mut self, name: &QualName)
        requires
            open_elements(*old(self)).len() > 0,
        ensures
            written(*final(self)) == written(*old(self)) + (if open_elements(*old(self)).last().1 {
                Seq::empty()
            } else {
                end_tag(name@)
            }),
            open_elements(*final(self)) == open_elements(*old(self)).drop_last(),
    {
        let prefix = name.prefix.as_deref().map(Prefix::from);
        let ns = Namespace::from(name.ns.as_str());
        let local = LocalName::from(name.local.as_str());
        self.serializer.end_elem(html5ever::QualName::new(prefix, ns, local)).ok();
    }

    /// Calls `Serializer::write_text` of `HtmlSerializer`, which writes the text, escaped unless
    /// the innermost open element is one whose text stands as it is. It panics where no element is
    /// open.
    #[verifier::external_body]
    pub(crate) fn write_text(&mut self, text: &str)
        requires
            open_elements(*old(self)).len() > 0,
        ensures
            written(*final(self)) == written(*old(self)) + text_html(
                open_elements(*old(self)).last(),
                text@,
            ),
            open_elements(*final(self)) == open_elements(*old(self)),
    {
        self.serializer.write_text(text).ok();
    }

    /// Calls `Serializer::write_comment` of `HtmlSerializer`, which writes a comment.
    #[verifier::external_body]
    pub(crate) fn write_comment(&mut self, text: &str)
        ensures
            written(*final(self)) == written(*old(self)) + comment_html(text@),
            open_elements(*final(self)) == open_elements(*old(self)),
    {
        self.serializer.write_comment(text).ok();
    }

    /// Calls `Serializer::write_doctype` of `HtmlSerializer`, which writes a doctype.
    #[verifier::external_body]
    pub(crate) fn write_doctype(&mut self, name: &str)
        ensures
            written(*final(self)) == written(*old(self)) + doctype_html(name@),
            open_elements(*final(self)) == open_elements(*old(self)),
    {
        self.serializer.write_doctype(name).ok();
    }

    /// Calls `Serializer::write_processing_instruction` of `HtmlSerializer`, which writes a
    /// processing instruction.
    #[verifier::external_body]
    pub(crate) fn write_processing_instruction(&mut self, target: &str, data: &str)
        ensures
            written(*final(self)) == written(*old(self)) + processing_instruction_html(
                target@,
                data@,
            ),
            open_elements(*final(self)) == open_elements(*old(self)),
    {
        self.serializer.write_processing_instruction(target, data).ok();
    }

    /// Takes the vector that an `HtmlSerializer` wrote to, the public field `writer`: it holds the
    /// UTF-8 encoding of what was written.
    #[verifier::external_body]
    pub(crate) fn into_bytes(self) -> (r: Vec<u8>)
        ensures
            r@ == encode_utf8(written(self)),
    {
        self.serializer.writer
    }
}

// ---- writing a node ----

/// What is written of `h` inside `outer`.
pub open spec fn fragment(
    d: DomView,
    h: Handle,
    scope: TraversalScope,
    outer: OpenElement,
) -> Seq<char> {
    forest_html(d.forest(selected(d, h, scope)), outer)
}

/// What a call writes where `stack` are the open elements.
pub open spec fn call_html(call: CallView, stack: Seq<OpenElement>) -> Seq<char> {
    match call {
        CallView::StartElem { name, attrs } => if stack.last().1 {
            Seq::empty()
        } else {
            start_tag(name, attrs)
        },
        CallView::EndElem { name } => if stack.last().1 {
            Seq::empty()
        } else {
            end_tag(name)
        },
        CallView::WriteText { text } => text_html(stack.last(), text),
        CallView::WriteComment { text } => comment_html(text),
        CallView::WriteDoctype { name } => doctype_html(name),
        CallView::WriteProcessingInstruction { target, data } => processing_instruction_html(
            target,
            data,
        ),
    }
}

/// The open elements after a call.
pub open spec fn stack_after(call: CallView, stack: Seq<OpenElement>) -> Seq<OpenElement> {
    match call {
        CallView::StartElem { name, .. } => stack.push(opened(stack.last(), name)),
        CallView::EndElem { .. } => stack.drop_last(),
        _ => stack,
    }
}

/// What calls write, one after the other.
pub open spec fn calls_html(calls: Seq<CallView>, stack: Seq<OpenElement>) -> Seq<char>
    decreases calls.len(),
{
    if calls.len() == 0 {
        Seq::empty()
    } else {
        call_html(calls.first(), stack) + calls_html(
            calls.drop_first(),
            stack_after(calls.first(), stack),
        )
    }
}

/// The open elements after calls.
pub open spec fn stack_after_all(calls: Seq<CallView>, stack: Seq<OpenElement>) -> Seq<OpenElement>
    decreases calls.len(),
{
    if calls.len() == 0 {
        stack
    } else {
        stack_after_all(calls.drop_first(), stack_after(calls.first(), stack))
    }
}

/// Whether an element is open at every call.
pub open spec fn never_outside(calls: Seq<CallView>, stack: Seq<OpenElement>) -> bool
    decreases calls.len(),
{
    calls.len() > 0 ==> stack.len() > 0 && never_outside(
        calls.drop_first(),
        stack_after(calls.first(), stack),
    )
}

/// The calls for a tree write the tree, and leave the open elements as they were.
proof fn lemma_tree_calls_html(tree: Tree, rest: Seq<CallView>, stack: Seq<OpenElement>)
    requires
        stack.len() > 0,
    ensures
        calls_html(tree_calls(tree) + rest, stack) == tree_html(tree, stack.last()) + calls_html(
            rest,
            stack,
        ),
        stack_after_all(tree_calls(tree) + rest, stack) == stack_after_all(rest, stack),
        never_outside(tree_calls(tree) + rest, stack) == never_outside(rest, stack),
    decreases tree, 0nat,
{
    let calls = tree_calls(tree) + rest;
    match tree.data {
        DataView::Element { name, attrs, .. } => {
            let start = CallView::StartElem { name, attrs };
            let end = CallView::EndElem { name };
            let closing = seq![end] + rest;
            let inner = stack.push(opened(stack.last(), name));
            let body = forest_html(tree.children, inner.last());
            lemma_forest_calls_html(tree.children, closing, inner);
            assert(calls.first() == start);
            assert(calls.drop_first() =~= forest_calls(tree.children) + closing);
            assert(closing.first() == end);
            assert(closing.drop_first() =~= rest);
            assert(inner.drop_last() =~= stack);
            let head = call_html(start, stack);
            let tail = call_html(end, inner);
            assert(head + (body + (tail + calls_html(rest, stack))) =~= (head + body + tail)
                + calls_html(rest, stack));
        },
        DataView::Document => {
            assert(calls =~= rest);
            assert(Seq::<char>::empty() + calls_html(rest, stack) =~= calls_html(rest, stack));
        },
        _ => {
            assert(calls.drop_first() =~= rest);
            assert(calls.first() == tree_calls(tree)[0]);
        },
    }
}

proof fn lemma_forest_calls_html(trees: Seq<Tree>, rest: Seq<CallView>, stack: Seq<OpenElement>)
    requires
        stack.len() > 0,
    ensures
        calls_html(forest_calls(trees) + rest, stack) == forest_html(trees, stack.last())
            + calls_html(rest, stack),
        stack_after_all(forest_calls(trees) + rest, stack) == stack_after_all(rest, stack),
        never_outside(forest_calls(trees) + rest, stack) == never_outside(rest, stack),
    decreases trees, 1nat,
{
    if trees.len() == 0 {
        assert(forest_calls(trees) + rest =~= rest);
        assert(Seq::<char>::empty() + calls_html(rest, stack) =~= calls_html(rest, stack));
    } else {
        let tail = trees.drop_first();
        lemma_forest_calls_html(tail, rest, stack);
        lemma_tree_calls_html(trees.first(), forest_calls(tail) + rest, stack);
        assert(forest_calls(trees) + rest =~= tree_calls(trees.first()) + (forest_calls(tail)
            + rest));
        assert(tree_html(trees.first(), stack.last()) + (forest_html(tail, stack.last())
            + calls_html(rest, stack)) =~= (tree_html(trees.first(), stack.last()) + forest_html(
            tail,
            stack.last(),
        )) + calls_html(rest, stack));
    }
}

impl HtmlWriter {
    /// Makes a call.
    fn make(&mut self, call: &SerializerCall)
        requires
            open_elements(*old(self)).len() > 0,
        ensures
            written(*final(self)) == written(*old(self)) + call_html(
                call@,
                open_elements(*old(self)),
            ),
            open_elements(*final(self)) == stack_after(call@, open_elements(*old(self))),
    {
        match call {
            SerializerCall::StartElem { name, attrs } => self.start_elem(name, attrs),
            SerializerCall::EndElem { name } => self.end_elem(name),
            SerializerCall::WriteText { text } => self.write_text(text.as_str()),
            SerializerCall::WriteComment { text } => self.write_comment(text.as_str()),
            SerializerCall::WriteDoctype { name } => self.write_doctype(name.as_str()),
            SerializerCall::WriteProcessingInstruction { target, data } => {
                self.write_processing_instruction(target.as_str(), data.as_str())
            },
        }
    }

    /// A writer that has written nothing and stands in one nameless element.
    pub fn in_memory() -> (r: HtmlWriter)
        ensures
            written(r) == Seq::<char>::empty(),
            open_elements(r) == seq![(None::<Seq<char>>, false)],
    {
        HtmlWriter::new()
    }

    /// What was written, in UTF-8.
    pub fn finish(self) -> (r: Vec<u8>)
        ensures
            r@ == encode_utf8(written(self)),
    {
        self.into_bytes()
    }
}

impl SerializableHandle {
    /// Writes the nodes that `traversal_scope` selects, in document order.
    pub fn serialize(
        &self,
        dom: &RcDom,
        serializer: &mut HtmlWriter,
        traversal_scope: TraversalScope,
    )
        requires
            dom@.wf(),
            dom@.finite_depth(),
            dom@.valid(self.0),
            all_writable(dom@, self.0, traversal_scope),
            open_elements(*old(serializer)).len() > 0,
        ensures
            written(*final(serializer)) == written(*old(serializer)) + fragment(
                dom@,
                self.0,
                traversal_scope,
                open_elements(*old(serializer)).last(),
            ),
            open_elements(*final(serializer)) == open_elements(*old(serializer)),
    {
        let ghost start = written(*serializer);
        let ghost outside = open_elements(*serializer);
        let calls = self.calls(dom, traversal_scope);
        let ghost all = call_views(calls@);
        let ghost target = start + fragment(dom@, self.0, traversal_scope, outside.last());
        proof {
            let trees = dom@.forest(selected(dom@, self.0, traversal_scope));
            lemma_forest_calls_html(trees, Seq::empty(), outside);
            assert(forest_calls(trees) + Seq::<CallView>::empty() =~= all);
            assert(forest_html(trees, outside.last()) + Seq::<char>::empty() =~= forest_html(
                trees,
                outside.last(),
            ));
            assert(all.skip(0) =~= all);
        }
        for i in 0..calls.len()
            invariant
                all == call_views(calls@),
                never_outside(all.skip(i as int), open_elements(*serializer)),
                stack_after_all(all.skip(i as int), open_elements(*serializer)) == outside,
                written(*serializer) + calls_html(all.skip(i as int), open_elements(*serializer))
                    == target,
        {
            let ghost done = written(*serializer);
            let ghost stack = open_elements(*serializer);
            let ghost left = all.skip(i as int);
            assert(left.first() == calls@[i as int]@);
            assert(left.drop_first() =~= all.skip(i + 1));
            serializer.make(&calls[i]);
            assert(done + (call_html(left.first(), stack) + calls_html(
                left.drop_first(),
                stack_after(left.first(), stack),
            )) =~= (done + call_html(left.first(), stack)) + calls_html(
                left.drop_first(),
                stack_after(left.first(), stack),
            ));
        }
        assert(all.skip(calls@.len() as int) =~= Seq::empty());
        assert(written(*serializer) + Seq::<char>::empty() =~= written(*serializer));
    }
}

/// The HTML of the nodes that `traversal_scope` selects, as bytes.
pub fn serialize(
    dom: &RcDom,
    node: &SerializableHandle,
    traversal_scope: TraversalScope,
) -> (r: Vec<u8>)
    requires
        dom@.wf(),
        dom@.finite_depth(),
        dom@.valid(node.0),
        all_writable(dom@, node.0, traversal_scope),
    ensures
        r@ == encode_utf8(fragment(dom@, node.0, traversal_scope, (None, false))),
{
    let mut writer = HtmlWriter::in_memory();
    node.serialize(dom, &mut writer, traversal_scope);
    assert(Seq::<char>::empty() + written(writer) =~= written(writer));
    writer.finish()
}

// ---- laws ----

/// An element is written as its start tag, what hangs under it, and its end tag; a void element
/// has no end tag, and an element inside one has no tags.
pub proof fn law_element_html(d: DomView, h: Handle, outer: OpenElement)
    requires
        d.wf(),
        d.finite_depth(),
        d.valid(h),
        d.is_element(h),
    ensures
        ({
            let name = d.data(h)->Element_name;
            let inner = opened(outer, name);
            fragment(d, h, TraversalScope::IncludeNode, outer) == (if outer.1 {
                Seq::empty()
            } else {
                start_tag(name, d.data(h)->Element_attrs)
            }) + fragment(d, h, TraversalScope::ChildrenOnly, inner) + (if inner.1 {
                Seq::empty()
            } else {
                end_tag(name)
            })
        }),
{
    let forest = d.forest(seq![h]);
    reveal_with_fuel(forest_html, 2);
    assert(forest.first() == d.tree(h));
    assert(forest.drop_first() =~= Seq::empty());
    assert(d.tree(h).children =~= d.forest(d.children(h)));
    assert(fragment(d, h, TraversalScope::IncludeNode, outer) =~= tree_html(d.tree(h), outer));
}

/// Nodes under which the same hangs are written alike; so a copy is written as what it is a copy
/// of.
pub proof fn law_same_tree_same_html(
    d: DomView,
    h: Handle,
    e: DomView,
    copy: Handle,
    outer: OpenElement,
)
    requires
        d.tree(h) == e.tree(copy),
    ensures
        fragment(d, h, TraversalScope::IncludeNode, outer) == fragment(
            e,
            copy,
            TraversalScope::IncludeNode,
            outer,
        ),
{
    assert(d.forest(seq![h]) =~= e.forest(seq![copy]));
}

/// An escaped text holds no character that could begin or end a tag, and an escaped attribute's
/// value none that could end the value.
pub proof fn law_escaped_holds_no_markup(text: Seq<char>, in_attribute: bool, i: int)
    requires
        0 <= i < escaped(text, in_attribute).len(),
    ensures
        escaped(text, in_attribute)[i] != '<',
        escaped(text, in_attribute)[i] != '>',
        in_attribute ==> escaped(text, in_attribute)[i] != '"',
    decreases text.len(),
{
    let before = escaped(text.drop_last(), in_attribute);
    if i < before.len() {
        law_escaped_holds_no_markup(text.drop_last(), in_attribute, i);
    } else {
        reveal_strlit("&amp;");
        reveal_strlit("&nbsp;");
        reveal_strlit("&quot;");
        reveal_strlit("&lt;");
        reveal_strlit("&gt;");
        assert(escaped(text, in_attribute)[i] == escaped_char(text.last(), in_attribute)[i
            - before.len()]);
    }
}

/// One more tree is written after the others.
proof fn lemma_forest_html_push(trees: Seq<Tree>, tree: Tree, outer: OpenElement)
    ensures
        forest_html(trees.push(tree), outer) == forest_html(trees, outer) + tree_html(tree, outer),
    decreases trees.len(),
{
    let all = trees.push(tree);
    if trees.len() == 0 {
        reveal_with_fuel(forest_html, 2);
        assert(all.drop_first() =~= Seq::empty());
        assert(forest_html(all, outer) =~= tree_html(tree, outer));
    } else {
        assert(all.first() == trees.first());
        assert(all.drop_first() =~= trees.drop_first().push(tree));
        lemma_forest_html_push(trees.drop_first(), tree, outer);
        assert(tree_html(trees.first(), outer) + (forest_html(trees.drop_first(), outer)
            + tree_html(tree, outer)) =~= (tree_html(trees.first(), outer) + forest_html(
            trees.drop_first(),
            outer,
        )) + tree_html(tree, outer));
    }
}

/// A node that is appended is written after what its parent held before.
pub proof fn law_appended_node_is_written_last(
    d: DomView,
    parent: Handle,
    node: Handle,
    outer: OpenElement,
)
    requires
        d.wf(),
        d.is_tree(),
        d.valid(parent),
        d.valid(node),
        d.parent(node) is None,
        !d.reaches(node, parent),
    ensures
        fragment(
            d.append(parent, NodeOrText::AppendNode(node)),
            parent,
            TraversalScope::ChildrenOnly,
            outer,
        ) == fragment(d, parent, TraversalScope::ChildrenOnly, outer) + fragment(
            d,
            node,
            TraversalScope::IncludeNode,
            outer,
        ),
{
    let e = d.append(parent, NodeOrText::AppendNode(node));
    let hs = d.children(parent);
    law_append_keeps_tree(d, parent, NodeOrText::AppendNode(node));
    lemma_attach_is_attach_at(d, parent, node);
    lemma_attach_at_wf(d, parent, hs.len() as int, node);
    assert(d.node_wf(d.node(parent)));
    assert forall|x: Handle| d.valid(x) && x != parent implies #[trigger] e.children(x)
        == d.children(x) by {}
    assert forall|x: Handle| d.valid(x) implies #[trigger] e.data(x) == d.data(x) by {}
    assert(e.children(parent) =~= hs.push(node));
    lemma_same_below_same_tree(d, e, node);
    assert forall|i: int| 0 <= i < hs.len() implies e.tree(#[trigger] hs[i]) == d.tree(hs[i]) by {
        lemma_child_does_not_reach(d, parent, i);
        lemma_same_below_same_tree(d, e, hs[i]);
    }
    assert(e.forest(hs.push(node)) =~= d.forest(hs).push(d.tree(node)));
    lemma_forest_html_push(d.forest(hs), d.tree(node), outer);
    lemma_forest_html_push(Seq::empty(), d.tree(node), outer);
    assert(d.forest(seq![node]) =~= Seq::empty().push(d.tree(node)));
    assert(forest_html(Seq::empty(), outer) + tree_html(d.tree(node), outer) =~= tree_html(
        d.tree(node),
        outer,
    ));
}

/// Texts are escaped piece by piece.
pub proof fn law_escaped_piece_by_piece(a: Seq<char>, b: Seq<char>, in_attribute: bool)
    ensures
        escaped(a + b, in_attribute) == escaped(a, in_attribute) + escaped(b, in_attribute),
    decreases b.len(),
{
    if b.len() == 0 {
        assert(a + b =~= a);
        assert(escaped(a, in_attribute) + Seq::<char>::empty() =~= escaped(a, in_attribute));
    } else {
        law_escaped_piece_by_piece(a, b.drop_last(), in_attribute);
        assert((a + b).drop_last() =~= a + b.drop_last());
        assert((a + b).last() == b.last());
        assert((escaped(a, in_attribute) + escaped(b.drop_last(), in_attribute)) + escaped_char(
            b.last(),
            in_attribute,
        ) =~= escaped(a, in_attribute) + (escaped(b.drop_last(), in_attribute) + escaped_char(
            b.last(),
            in_attribute,
        )));
    }
}

/// A text that is appended is written after what its parent held before, be it that it joins a
/// text node that was there or not.
pub proof fn law_appended_text_is_written_last(
    d: DomView,
    parent: Handle,
    text: String,
    outer: OpenElement,
)
    requires
        d.wf(),
        d.is_tree(),
        d.valid(parent),
        d.nodes.len() < usize::MAX,
    ensures
        fragment(
            d.append(parent, NodeOrText::AppendText(text)),
            parent,
            TraversalScope::ChildrenOnly,
            outer,
        ) == fragment(d, parent, TraversalScope::ChildrenOnly, outer) + text_html(outer, text@),
{
    if d.ends_in_text(parent) {
        lemma_joined_text_is_written_last(d, parent, text, outer);
    } else {
        lemma_new_text_is_written_last(d, parent, text, outer);
    }
}

proof fn lemma_joined_text_is_written_last(
    d: DomView,
    parent: Handle,
    text: String,
    outer: OpenElement,
)
    requires
        d.wf(),
        d.is_tree(),
        d.valid(parent),
        d.nodes.len() < usize::MAX,
        d.ends_in_text(parent),
    ensures
        fragment(
            d.append(parent, NodeOrText::AppendText(text)),
            parent,
            TraversalScope::ChildrenOnly,
            outer,
        ) == fragment(d, parent, TraversalScope::ChildrenOnly, outer) + text_html(outer, text@),
{
    let e = d.append(parent, NodeOrText::AppendText(text));
    let hs = d.children(parent);
    let last = hs.last();
    let held = d.data(last)->Text_contents;
    assert(d.node_wf(d.node(parent)));
    assert(hs.no_duplicates());
    law_append_keeps_tree(d, parent, NodeOrText::AppendText(text));
    lemma_set_node_wf(d, last, e.node(last));
    assert forall|x: Handle| d.valid(x) implies #[trigger] e.children(x) == d.children(x) by {}
    assert forall|x: Handle| d.valid(x) && x != last implies #[trigger] e.data(x) == d.data(x) by {}
    assert forall|i: int| 0 <= i < hs.len() - 1 implies e.tree(#[trigger] hs[i]) == d.tree(
        hs[i],
    ) by {
        lemma_child_does_not_reach(d, parent, i);
        if d.reaches(hs[i], last) {
            assert(d.parent(hs[hs.len() - 1]) == Some(parent));
            lemma_reaches_parent(d, hs[i], last, parent);
        }
        lemma_same_below_same_tree(d, e, hs[i]);
    }
    let before = d.forest(hs.drop_last());
    assert(e.forest(hs) =~= before.push(e.tree(last)));
    assert(d.forest(hs) =~= before.push(d.tree(last)));
    lemma_forest_html_push(before, e.tree(last), outer);
    lemma_forest_html_push(before, d.tree(last), outer);
    law_escaped_piece_by_piece(held, text@, false);
    assert(text_html(outer, held + text@) =~= text_html(outer, held) + text_html(outer, text@));
    assert(forest_html(before, outer) + (text_html(outer, held) + text_html(outer, text@)) =~= (
    forest_html(before, outer) + text_html(outer, held)) + text_html(outer, text@));
}

proof fn lemma_new_text_is_written_last(
    d: DomView,
    parent: Handle,
    text: String,
    outer: OpenElement,
)
    requires
        d.wf(),
        d.is_tree(),
        d.valid(parent),
        d.nodes.len() < usize::MAX,
        !d.ends_in_text(parent),
    ensures
        fragment(
            d.append(parent, NodeOrText::AppendText(text)),
            parent,
            TraversalScope::ChildrenOnly,
            outer,
        ) == fragment(d, parent, TraversalScope::ChildrenOnly, outer) + text_html(outer, text@),
{
    let data = DataView::Text { contents: text@ };
    let hs = d.children(parent);
    let f = d.add_node(detached(data));
    let node = d.next_handle();
    assert(d.node_wf(d.node(parent)));
    lemma_add_node_wf(d, detached(data));
    law_create_keeps_tree(d, data);
    assert(f.node(node) == detached(data));
    if f.reaches(node, parent) {
        lemma_leaf_reaches(f, node, parent);
    }
    law_appended_node_is_written_last(f, parent, node, outer);
    assert forall|x: Handle| d.valid(x) implies #[trigger] f.children(x) == d.children(x)
        && f.data(x) == d.data(x) by {}
    assert forall|i: int| 0 <= i < hs.len() implies f.tree(#[trigger] hs[i]) == d.tree(hs[i]) by {
        lemma_same_below_same_tree(d, f, hs[i]);
    }
    assert(f.forest(hs) =~= d.forest(hs));
    lemma_forest_html_push(Seq::empty(), f.tree(node), outer);
    assert(f.forest(seq![node]) =~= Seq::empty().push(f.tree(node)));
    assert(fragment(f, node, TraversalScope::IncludeNode, outer) =~= text_html(outer, text@));
}

} // verus!
