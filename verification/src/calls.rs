//! The calls that write a node to a serializer, in document order.

use crate::interface::{
    attribute_views, clone_attributes, Attribute, AttributeView, Handle, QualName, QualNameView,
};
use crate::model::{forest_size, tree_size, DataView, DomView, Tree};
use crate::rcdom::{NodeData, RcDom};
use std::collections::VecDeque;
use vstd::prelude::*;

verus! {

// ---- calls ----

/// A call of a serializer.
#[allow(inconsistent_fields)]
#[derive(Debug)]
pub enum SerializerCall {
    StartElem { name: QualName, attrs: Vec<Attribute> },
    EndElem { name: QualName },
    WriteText { text: String },
    WriteComment { text: String },
    WriteDoctype { name: String },
    WriteProcessingInstruction { target: String, data: String },
}

/// The method and the arguments of a [`SerializerCall`].
#[allow(inconsistent_fields)]
#[verifier::ext_equal]
pub enum CallView {
    StartElem { name: QualNameView, attrs: Seq<AttributeView> },
    EndElem { name: QualNameView },
    WriteText { text: Seq<char> },
    WriteComment { text: Seq<char> },
    WriteDoctype { name: Seq<char> },
    WriteProcessingInstruction { target: Seq<char>, data: Seq<char> },
}

impl View for SerializerCall {
    type V = CallView;

    open spec fn view(&self) -> CallView {
        match self {
            SerializerCall::StartElem { name, attrs } => CallView::StartElem {
                name: name@,
                attrs: attribute_views(attrs@),
            },
            SerializerCall::EndElem { name } => CallView::EndElem { name: name@ },
            SerializerCall::WriteText { text } => CallView::WriteText { text: text@ },
            SerializerCall::WriteComment { text } => CallView::WriteComment { text: text@ },
            SerializerCall::WriteDoctype { name } => CallView::WriteDoctype { name: name@ },
            SerializerCall::WriteProcessingInstruction { target, data } => {
                CallView::WriteProcessingInstruction { target: target@, data: data@ }
            },
        }
    }
}

/// The methods and the arguments of calls.
pub open spec fn call_views(calls: Seq<SerializerCall>) -> Seq<CallView> {
    Seq::new(calls.len(), |i: int| calls[i]@)
}

/// The calls that write a tree: an element is started, its children are written in their order,
/// and it is ended.
pub open spec fn tree_calls(tree: Tree) -> Seq<CallView>
    decreases tree,
{
    match tree.data {
        DataView::Element { name, attrs, .. } => seq![CallView::StartElem { name, attrs }]
            + forest_calls(tree.children) + seq![CallView::EndElem { name }],
        DataView::Doctype { name, .. } => seq![CallView::WriteDoctype { name }],
        DataView::Text { contents } => seq![CallView::WriteText { text: contents }],
        DataView::Comment { contents } => seq![CallView::WriteComment { text: contents }],
        DataView::ProcessingInstruction { target, contents } => seq![
            CallView::WriteProcessingInstruction { target, data: contents },
        ],
        DataView::Document => Seq::empty(),
    }
}

/// The calls that write trees, one after the other.
pub open spec fn forest_calls(trees: Seq<Tree>) -> Seq<CallView>
    decreases trees,
{
    if trees.len() == 0 {
        Seq::empty()
    } else {
        tree_calls(trees.first()) + forest_calls(trees.drop_first())
    }
}

/// Whether a tree can be written: no `Document` node is to be written.
pub open spec fn writable(tree: Tree) -> bool
    decreases tree,
{
    match tree.data {
        DataView::Document => false,
        DataView::Element { .. } => forall|i: int|
            0 <= i < tree.children.len() ==> writable(#[trigger] tree.children[i]),
        _ => true,
    }
}

// ---- nodes ----

/// Which nodes are written.
#[derive(Debug, Clone, Copy, PartialEq, Eq, Structural)]
pub enum TraversalScope {
    /// The node and what hangs under it.
    IncludeNode,
    /// What hangs under the node.
    ChildrenOnly,
}

/// A step of writing: a node to begin with, or an element to end.
enum SerializeOp {
    Open(Handle),
    Close(QualName),
}

/// A node that can be written.
#[derive(Debug, Clone, Copy, PartialEq, Eq, Structural)]
pub struct SerializableHandle(pub Handle);

impl From<Handle> for SerializableHandle {
    fn from(h: Handle) -> (r: SerializableHandle) {
        SerializableHandle(h)
    }
}

impl vstd::std_specs::convert::FromSpecImpl<Handle> for SerializableHandle {
    open spec fn obeys_from_spec() -> bool {
        true
    }

    open spec fn from_spec(h: Handle) -> SerializableHandle {
        SerializableHandle(h)
    }
}

/// The nodes that `scope` selects at `h`.
pub open spec fn selected(d: DomView, h: Handle, scope: TraversalScope) -> Seq<Handle> {
    match scope {
        TraversalScope::IncludeNode => seq![h],
        TraversalScope::ChildrenOnly => d.children(h),
    }
}

/// Whether each of `hs` can be written.
pub open spec fn each_writable(d: DomView, hs: Seq<Handle>) -> bool {
    forall|i: int| 0 <= i < hs.len() ==> writable(d.tree(#[trigger] hs[i]))
}

/// Whether the nodes that `scope` selects at `h` can be written.
pub open spec fn all_writable(d: DomView, h: Handle, scope: TraversalScope) -> bool {
    each_writable(d, selected(d, h, scope))
}

/// The calls that write the nodes that `scope` selects at `h`.
pub open spec fn trace(d: DomView, h: Handle, scope: TraversalScope) -> Seq<CallView> {
    forest_calls(d.forest(selected(d, h, scope)))
}

/// The calls that are left to make.
spec fn pending_calls(d: DomView, ops: Seq<SerializeOp>) -> Seq<CallView>
    decreases ops.len(),
{
    if ops.len() == 0 {
        Seq::empty()
    } else {
        (match ops.first() {
            SerializeOp::Open(h) => tree_calls(d.tree(h)),
            SerializeOp::Close(name) => seq![CallView::EndElem { name: name@ }],
        }) + pending_calls(d, ops.drop_first())
    }
}

/// How many steps are left at most.
spec fn work(d: DomView, ops: Seq<SerializeOp>) -> nat
    decreases ops.len(),
{
    if ops.len() == 0 {
        0
    } else {
        work(d, ops.drop_first()) + (match ops.first() {
            SerializeOp::Open(h) => 2 * tree_size(d.tree(h)),
            SerializeOp::Close(_) => 1nat,
        })
    }
}

/// The steps that begin with each of `hs`.
spec fn opens(hs: Seq<Handle>) -> Seq<SerializeOp> {
    Seq::new(hs.len(), |i: int| SerializeOp::Open(hs[i]))
}

/// Whether every step is on a valid, writable node.
spec fn ready(d: DomView, ops: Seq<SerializeOp>) -> bool {
    forall|i: int|
        0 <= i < ops.len() ==> (#[trigger] ops[i] matches SerializeOp::Open(h) ==> d.valid(h)
            && writable(d.tree(h)))
}

/// Steps on nodes come down to the calls that write the nodes.
proof fn lemma_opens(d: DomView, hs: Seq<Handle>, rest: Seq<SerializeOp>)
    ensures
        pending_calls(d, opens(hs) + rest) == forest_calls(d.forest(hs)) + pending_calls(d, rest),
        work(d, opens(hs) + rest) == work(d, rest) + 2 * forest_size(d.forest(hs)),
    decreases hs.len(),
{
    let ops = opens(hs) + rest;
    if hs.len() == 0 {
        assert(ops =~= rest);
        assert(d.forest(hs) =~= Seq::empty());
        assert(Seq::<CallView>::empty() + pending_calls(d, rest) =~= pending_calls(d, rest));
    } else {
        let tail = hs.drop_first();
        lemma_opens(d, tail, rest);
        assert(ops.drop_first() =~= opens(tail) + rest);
        assert(ops.first() == SerializeOp::Open(hs.first()));
        assert(d.forest(hs).drop_first() =~= d.forest(tail));
        assert(d.forest(hs).first() == d.tree(hs.first()));
        lemma_forest_size_first(d.forest(hs));
        let calls = tree_calls(d.tree(hs.first()));
        assert(calls + (forest_calls(d.forest(tail)) + pending_calls(d, rest)) =~= (calls
            + forest_calls(d.forest(tail))) + pending_calls(d, rest));
    }
}

/// The size of a sequence of trees, counted from the front.
proof fn lemma_forest_size_first(trees: Seq<Tree>)
    requires
        trees.len() > 0,
    ensures
        forest_size(trees) == tree_size(trees.first()) + forest_size(trees.drop_first()),
    decreases trees.len(),
{
    if trees.len() > 1 {
        lemma_forest_size_first(trees.drop_last());
        assert(trees.drop_last().drop_first() =~= trees.drop_first().drop_last());
        assert(trees.drop_first().last() == trees.last());
    } else {
        assert(trees.drop_last() =~= Seq::empty());
        assert(trees.drop_first() =~= Seq::empty());
    }
}

/// Once an element is started, what is left is its children, its end and the rest.
proof fn lemma_element_opened(d: DomView, h: Handle, name: QualName, rest: Seq<SerializeOp>)
    requires
        d.wf(),
        d.finite_depth(),
        d.valid(h),
        d.is_element(h),
        d.data(h)->Element_name == name@,
        writable(d.tree(h)),
        ready(d, rest),
    ensures
        ({
            let ops = opens(d.children(h)) + (seq![SerializeOp::Close(name)] + rest);
            let start = CallView::StartElem { name: name@, attrs: d.data(h)->Element_attrs };
            &&& ready(d, ops)
            &&& work(d, ops) < work(d, rest) + 2 * tree_size(d.tree(h))
            &&& seq![start] + pending_calls(d, ops) == tree_calls(d.tree(h)) + pending_calls(
                d,
                rest,
            )
        }),
{
    let children = d.children(h);
    let tree = d.tree(h);
    let closing = seq![SerializeOp::Close(name)] + rest;
    let ops = opens(children) + closing;
    let start = CallView::StartElem { name: name@, attrs: d.data(h)->Element_attrs };
    let end = CallView::EndElem { name: name@ };
    assert(d.node_wf(d.node(h)));
    assert(tree.children =~= d.forest(children));
    assert forall|i: int|
        0 <= i < ops.len() implies (#[trigger] ops[i] matches SerializeOp::Open(x) ==> d.valid(x)
        && writable(d.tree(x))) by {
        if i < children.len() {
            assert(ops[i] == SerializeOp::Open(children[i]));
            assert(writable(tree.children[i]));
        } else if i > children.len() {
            assert(ops[i] == rest[i - children.len() - 1]);
        }
    }
    lemma_opens(d, children, closing);
    assert(closing.drop_first() =~= rest);
    assert(pending_calls(d, closing) == seq![end] + pending_calls(d, rest));
    assert(tree_calls(tree) == seq![start] + forest_calls(tree.children) + seq![end]);
    assert(seq![start] + (forest_calls(tree.children) + (seq![end] + pending_calls(d, rest))) =~= (
    seq![start] + forest_calls(tree.children) + seq![end]) + pending_calls(d, rest));
}

fn push_all(list: &mut Vec<Handle>, more: &Vec<Handle>)
    ensures
        final(list)@ == old(list)@ + more@,
{
    for i in 0..more.len()
        invariant
            list@ == old(list)@ + more@.take(i as int),
    {
        list.push(more[i]);
        assert(list@ =~= old(list)@ + more@.take(i + 1));
    }
    assert(more@.take(more@.len() as int) =~= more@);
}

/// Taking a node's children in place of an element leaves it open whether all can be written.
proof fn lemma_writable_step(d: DomView, before: Seq<Handle>, x: Handle)
    requires
        d.wf(),
        d.finite_depth(),
        before.len() > 0,
        before.last() == x,
        d.valid(x),
        d.is_element(x),
    ensures
        each_writable(d, before.drop_last() + d.children(x)) == each_writable(d, before),
        forest_size(d.forest(before.drop_last() + d.children(x))) < forest_size(d.forest(before)),
{
    let rest = before.drop_last();
    let children = d.children(x);
    let after = rest + children;
    let tree = d.tree(x);
    assert(d.node_wf(d.node(x)));
    assert(tree.children =~= d.forest(children));
    if each_writable(d, before) {
        assert(writable(d.tree(before[before.len() - 1])));
        assert forall|i: int| 0 <= i < after.len() implies writable(d.tree(#[trigger] after[i])) by {
            if i < rest.len() {
                assert(after[i] == before[i]);
            } else {
                assert(writable(tree.children[i - rest.len()]));
            }
        }
    }
    if each_writable(d, after) {
        assert forall|i: int| 0 <= i < children.len() implies writable(
            #[trigger] tree.children[i],
        ) by {
            assert(after[rest.len() + i] == children[i]);
        }
        assert forall|i: int| 0 <= i < before.len() implies writable(
            d.tree(#[trigger] before[i]),
        ) by {
            if i < rest.len() {
                assert(after[i] == before[i]);
            }
        }
    }
    assert(d.forest(before).drop_last() =~= d.forest(rest));
    assert(d.forest(before).last() == tree);
    assert(forest_size(d.forest(before)) == forest_size(d.forest(rest)) + tree_size(tree));
    assert(tree_size(tree) == 1 + forest_size(tree.children));
    assert(d.forest(after) =~= d.forest(rest) + d.forest(children));
    lemma_forest_size_join(d.forest(rest), d.forest(children));
}

/// The sizes of two sequences of trees add up.
proof fn lemma_forest_size_join(a: Seq<Tree>, b: Seq<Tree>)
    ensures
        forest_size(a + b) == forest_size(a) + forest_size(b),
    decreases b.len(),
{
    if b.len() == 0 {
        assert(a + b =~= a);
    } else {
        lemma_forest_size_join(a, b.drop_last());
        assert((a + b).drop_last() =~= a + b.drop_last());
    }
}

/// A node that is no element and no document stands in no other's way.
proof fn lemma_writable_leaf(d: DomView, before: Seq<Handle>, x: Handle)
    requires
        d.wf(),
        d.finite_depth(),
        before.len() > 0,
        before.last() == x,
        d.valid(x),
        !d.is_element(x),
    ensures
        d.data(x) is Document ==> !each_writable(d, before),
        !(d.data(x) is Document) ==> each_writable(d, before.drop_last()) == each_writable(
            d,
            before,
        ),
        forest_size(d.forest(before.drop_last())) < forest_size(d.forest(before)),
{
    let rest = before.drop_last();
    assert(before[before.len() - 1] == x);
    if each_writable(d, before) {
        assert(writable(d.tree(before[before.len() - 1])));
        assert forall|i: int| 0 <= i < rest.len() implies writable(d.tree(#[trigger] rest[i])) by {
            assert(rest[i] == before[i]);
        }
    }
    if each_writable(d, rest) && !(d.data(x) is Document) {
        assert forall|i: int| 0 <= i < before.len() implies writable(
            d.tree(#[trigger] before[i]),
        ) by {
            if i < rest.len() {
                assert(rest[i] == before[i]);
            }
        }
    }
    assert(d.forest(before).drop_last() =~= d.forest(rest));
    assert(d.forest(before).last() == d.tree(x));
    assert(forest_size(d.forest(before)) == forest_size(d.forest(rest)) + tree_size(d.tree(x)));
    assert(tree_size(d.tree(x)) >= 1);
}

impl SerializableHandle {
    /// Whether the nodes that `traversal_scope` selects can be written: no `Document` node is to be
    /// written.
    pub fn is_writable(&self, dom: &RcDom, traversal_scope: TraversalScope) -> (r: bool)
        requires
            dom@.wf(),
            dom@.finite_depth(),
            dom@.valid(self.0),
        ensures
            r == all_writable(dom@, self.0, traversal_scope),
    {
        let ghost d = dom@;
        let mut left: Vec<Handle> = Vec::new();
        assert(d.node_wf(d.node(self.0)));
        match traversal_scope {
            TraversalScope::IncludeNode => left.push(self.0),
            TraversalScope::ChildrenOnly => push_all(&mut left, &dom.nodes[self.0.0].children),
        }
        assert(left@ =~= selected(d, self.0, traversal_scope));
        while left.len() > 0
            invariant
                d == dom@,
                d.wf(),
                d.finite_depth(),
                forall|i: int| 0 <= i < left@.len() ==> d.valid(#[trigger] left@[i]),
                each_writable(d, left@) == all_writable(d, self.0, traversal_scope),
            decreases forest_size(d.forest(left@)),
        {
            let ghost before = left@;
            let x = match left.pop() {
                Some(x) => x,
                None => vstd::pervasive::unreached(),
            };
            assert(before[before.len() - 1] == x);
            assert(left@ =~= before.drop_last());
            assert(d.node_wf(d.node(x)));
            match &dom.nodes[x.0].data {
                NodeData::Document => {
                    proof {
                        lemma_writable_leaf(d, before, x);
                    }
                    return false;
                },
                NodeData::Element { .. } => {
                    proof {
                        lemma_writable_step(d, before, x);
                    }
                    push_all(&mut left, &dom.nodes[x.0].children);
                },
                _ => {
                    proof {
                        lemma_writable_leaf(d, before, x);
                    }
                },
            }
        }
        true
    }

    /// The calls that write the nodes that `traversal_scope` selects, in document order.
    pub fn calls(&self, dom: &RcDom, traversal_scope: TraversalScope) -> (r: Vec<SerializerCall>)
        requires
            dom@.wf(),
            dom@.finite_depth(),
            dom@.valid(self.0),
            all_writable(dom@, self.0, traversal_scope),
        ensures
            call_views(r@) == trace(dom@, self.0, traversal_scope),
    {
        let ghost d = dom@;
        let ghost hs = selected(d, self.0, traversal_scope);
        let ghost target = trace(d, self.0, traversal_scope);
        let mut calls: Vec<SerializerCall> = Vec::new();
        let mut ops: VecDeque<SerializeOp> = VecDeque::new();
        match traversal_scope {
            TraversalScope::IncludeNode => ops.push_back(SerializeOp::Open(self.0)),
            TraversalScope::ChildrenOnly => {
                assert(d.node_wf(d.node(self.0)));
                let children = &dom.nodes[self.0.0].children;
                for i in 0..children.len()
                    invariant
                        children@ == d.children(self.0),
                        ops@ == opens(children@.take(i as int)),
                {
                    ops.push_back(SerializeOp::Open(children[i]));
                    assert(ops@ =~= opens(children@.take(i + 1)));
                }
                assert(children@.take(children@.len() as int) =~= children@);
            },
        }
        assert(ops@ =~= opens(hs));
        proof {
            lemma_opens(d, hs, Seq::empty());
            assert(opens(hs) + Seq::<SerializeOp>::empty() =~= opens(hs));
            assert(forest_calls(d.forest(hs)) + Seq::<CallView>::empty() =~= target);
        }
        assert(call_views(calls@) + pending_calls(d, ops@) =~= target);
        while ops.len() > 0
            invariant
                d == dom@,
                d.wf(),
                d.finite_depth(),
                ready(d, ops@),
                call_views(calls@) + pending_calls(d, ops@) == target,
            decreases work(d, ops@),
        {
            let ghost before = ops@;
            let ghost rest = ops@.drop_first();
            let ghost done = calls@;
            let op = match ops.pop_front() {
                Some(op) => op,
                None => vstd::pervasive::unreached(),
            };
            assert(op == before.first());
            assert(ops@ =~= rest);
            assert(ready(d, rest));
            match op {
                SerializeOp::Open(handle) => {
                    assert(before[0] == op);
                    assert(d.node_wf(d.node(handle)));
                    match &dom.nodes[handle.0].data {
                        NodeData::Element { name, attrs, .. } => {
                            calls.push(
                                SerializerCall::StartElem {
                                    name: name.clone(),
                                    attrs: clone_attributes(attrs),
                                },
                            );
                            let children = &dom.nodes[handle.0].children;
                            ops.push_front(SerializeOp::Close(name.clone()));
                            let ghost closing = ops@;
                            assert(closing =~= seq![SerializeOp::Close(*name)] + rest);
                            let mut i: usize = children.len();
                            while i > 0
                                invariant
                                    i <= children.len(),
                                    ops@ == opens(children@.skip(i as int)) + closing,
                                decreases i,
                            {
                                i -= 1;
                                ops.push_front(SerializeOp::Open(children[i]));
                                assert(ops@ =~= opens(children@.skip(i as int)) + closing);
                            }
                            assert(children@.skip(0) =~= children@);
                            proof {
                                lemma_element_opened(d, handle, *name, rest);
                            }
                        },
                        NodeData::Doctype { name, .. } => {
                            calls.push(SerializerCall::WriteDoctype { name: name.clone() });
                        },
                        NodeData::Text { contents } => {
                            calls.push(SerializerCall::WriteText { text: contents.clone() });
                        },
                        NodeData::Comment { contents } => {
                            calls.push(SerializerCall::WriteComment { text: contents.clone() });
                        },
                        NodeData::ProcessingInstruction { target, contents } => {
                            calls.push(
                                SerializerCall::WriteProcessingInstruction {
                                    target: target.clone(),
                                    data: contents.clone(),
                                },
                            );
                        },
                        NodeData::Document => {
                            assert(false);
                        },
                    }
                },
                SerializeOp::Close(name) => {
                    calls.push(SerializerCall::EndElem { name });
                },
            }
            proof {
                let call = calls@.last()@;
                assert(call_views(calls@) =~= call_views(done).push(call));
                assert(seq![call] + pending_calls(d, ops@) =~= pending_calls(d, before));
                assert(call_views(done).push(call) + pending_calls(d, ops@) =~= call_views(done) + (
                seq![call] + pending_calls(d, ops@)));
            }
        }
        assert(call_views(calls@) + Seq::<CallView>::empty() =~= call_views(calls@));
        calls
    }
}

// ---- making the calls ----

/// What comes next when calls are made one after the other.
#[derive(Debug)]
pub enum Replay<E> {
    /// Make the call at this place.
    Call(usize),
    /// No more calls are made.
    Done(Result<(), E>),
}

/// What comes next when `made` of `count` calls were made and the last of them gave `reply`: an
/// error ends it, and is what comes out.
pub open spec fn replay_step<E>(count: nat, made: nat, reply: Result<(), E>) -> Replay<E> {
    match reply {
        Err(e) => Replay::Done(Err(e)),
        Ok(_) => if made < count {
            Replay::Call(made as usize)
        } else {
            Replay::Done(Ok(()))
        },
    }
}

/// Says what comes next when the first `made` of `calls` were made and the last of them gave
/// `reply`.
pub fn next_call<E>(calls: &Vec<SerializerCall>, made: usize, reply: Result<(), E>) -> (r: Replay<
    E,
>)
    ensures
        r == replay_step(calls@.len(), made as nat, reply),
{
    match reply {
        Err(e) => Replay::Done(Err(e)),
        Ok(_) => if made < calls.len() {
            Replay::Call(made)
        } else {
            Replay::Done(Ok(()))
        },
    }
}

/// How many of `count` calls are made in the end, and what comes out, where `made` were made, the
/// last of them gave `reply`, and the `i`-th gives `replies(i)`.
pub open spec fn replayed<E>(
    count: nat,
    made: nat,
    reply: Result<(), E>,
    replies: spec_fn(nat) -> Result<(), E>,
) -> (nat, Result<(), E>)
    decreases count - made,
{
    match replay_step(count, made, reply) {
        Replay::Call(_) => replayed(count, made + 1, replies(made), replies),
        Replay::Done(outcome) => (made, outcome),
    }
}

/// The first error ends the walk and is what comes out: the calls up to the one that failed are
/// made, in the order of the list, and no other.
pub proof fn law_first_error_ends_the_walk<E>(
    count: nat,
    replies: spec_fn(nat) -> Result<(), E>,
    k: nat,
)
    requires
        k < count,
        forall|i: nat| i < k ==> #[trigger] replies(i) is Ok,
        replies(k) is Err,
    ensures
        replayed(count, 0, Ok(()), replies) == (k + 1, replies(k)),
{
    lemma_replayed_to_error(count, 0, Ok(()), replies, k);
}

proof fn lemma_replayed_to_error<E>(
    count: nat,
    made: nat,
    reply: Result<(), E>,
    replies: spec_fn(nat) -> Result<(), E>,
    k: nat,
)
    requires
        made <= k < count,
        reply is Ok,
        forall|i: nat| i < k ==> #[trigger] replies(i) is Ok,
        replies(k) is Err,
    ensures
        replayed(count, made, reply, replies) == (k + 1, replies(k)),
    decreases k - made,
{
    if made < k {
        lemma_replayed_to_error(count, made + 1, replies(made), replies, k);
    } else {
        reveal_with_fuel(replayed, 2);
    }
}

/// Where no call fails, all of them are made, and all went well.
pub proof fn law_all_calls_are_made<E>(count: nat, replies: spec_fn(nat) -> Result<(), E>)
    requires
        forall|i: nat| i < count ==> #[trigger] replies(i) is Ok,
    ensures
        replayed(count, 0, Ok(()), replies) == (count, Ok::<(), E>(())),
{
    lemma_replayed_to_end(count, 0, Ok(()), replies);
}

proof fn lemma_replayed_to_end<E>(
    count: nat,
    made: nat,
    reply: Result<(), E>,
    replies: spec_fn(nat) -> Result<(), E>,
)
    requires
        made <= count,
        reply is Ok,
        forall|i: nat| i < count ==> #[trigger] replies(i) is Ok,
    ensures
        replayed(count, made, reply, replies) == (count, Ok::<(), E>(())),
    decreases count - made,
{
    if made < count {
        lemma_replayed_to_end(count, made + 1, replies(made), replies);
    }
}

// ---- laws ----

/// An element is started, its children are written, and it is ended.
pub proof fn law_element_trace(d: DomView, h: Handle)
    requires
        d.wf(),
        d.finite_depth(),
        d.valid(h),
        d.is_element(h),
    ensures
        trace(d, h, TraversalScope::IncludeNode) == seq![
            CallView::StartElem {
                name: d.data(h)->Element_name,
                attrs: d.data(h)->Element_attrs,
            },
        ] + trace(d, h, TraversalScope::ChildrenOnly) + seq![
            CallView::EndElem { name: d.data(h)->Element_name },
        ],
{
    lemma_node_trace(d, h);
    assert(d.tree(h).children =~= d.forest(d.children(h)));
}

/// The trace of a node is that of its tree.
proof fn lemma_node_trace(d: DomView, h: Handle)
    ensures
        trace(d, h, TraversalScope::IncludeNode) == tree_calls(d.tree(h)),
{
    let forest = d.forest(seq![h]);
    reveal_with_fuel(forest_calls, 2);
    assert(forest.first() == d.tree(h));
    assert(forest.drop_first() =~= Seq::empty());
    assert(tree_calls(d.tree(h)) + Seq::<CallView>::empty() =~= tree_calls(d.tree(h)));
}

/// The children of a node are written one after the other, in their order.
pub proof fn law_children_trace(d: DomView, h: Handle)
    ensures
        trace(d, h, TraversalScope::ChildrenOnly) == Seq::new(
            d.children(h).len(),
            |i: int| trace(d, d.children(h)[i], TraversalScope::IncludeNode),
        ).flatten(),
{
    lemma_forest_trace(d, d.children(h));
}

proof fn lemma_forest_trace(d: DomView, hs: Seq<Handle>)
    ensures
        forest_calls(d.forest(hs)) == Seq::new(
            hs.len(),
            |i: int| trace(d, hs[i], TraversalScope::IncludeNode),
        ).flatten(),
    decreases hs.len(),
{
    let traces = Seq::new(hs.len(), |i: int| trace(d, hs[i], TraversalScope::IncludeNode));
    if hs.len() > 0 {
        let tail = hs.drop_first();
        lemma_forest_trace(d, tail);
        lemma_node_trace(d, hs.first());
        assert(d.forest(hs).first() == d.tree(hs.first()));
        assert(d.forest(hs).drop_first() =~= d.forest(tail));
        assert(traces.drop_first() =~= Seq::new(
            tail.len(),
            |i: int| trace(d, tail[i], TraversalScope::IncludeNode),
        ));
    }
}

} // verus!
