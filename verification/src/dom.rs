//! Reading and changing single nodes of a document.

use crate::interface::{attribute_views, Attribute, AttributeView, Handle};
use crate::lemmas::lemma_set_node_wf;
use crate::model::{DataView, DomView};
use crate::rcdom::{NodeData, RcDom};
use vstd::prelude::*;

verus! {

/// Where the first of `attrs` with the local name `local` stands; their number if there is none.
pub open spec fn attribute_index(attrs: Seq<AttributeView>, local: Seq<char>) -> int
    decreases attrs.len(),
{
    if attrs.len() == 0 {
        0
    } else if attrs.first().name.local == local {
        0
    } else {
        1 + attribute_index(attrs.drop_first(), local)
    }
}

/// The value of the first of `attrs` with the local name `local`.
pub open spec fn attribute_value(attrs: Seq<AttributeView>, local: Seq<char>) -> Option<Seq<char>> {
    let i = attribute_index(attrs, local);
    if i < attrs.len() {
        Some(attrs[i].value)
    } else {
        None
    }
}

/// `attrs`, the first of them with the local name `local` having the value `value`.
pub open spec fn with_attribute_value(
    attrs: Seq<AttributeView>,
    local: Seq<char>,
    value: Seq<char>,
) -> Seq<AttributeView> {
    let i = attribute_index(attrs, local);
    if i < attrs.len() {
        attrs.update(i, AttributeView { name: attrs[i].name, value })
    } else {
        attrs
    }
}

/// `attrs` without the first of them with the local name `local`.
pub open spec fn without_attribute(attrs: Seq<AttributeView>, local: Seq<char>) -> Seq<
    AttributeView,
> {
    let i = attribute_index(attrs, local);
    if i < attrs.len() {
        attrs.remove(i)
    } else {
        attrs
    }
}

/// The attributes of a node; none if it is no element.
pub open spec fn node_attributes(d: DomView, h: Handle) -> Seq<AttributeView> {
    match d.data(h) {
        DataView::Element { attrs, .. } => attrs,
        _ => Seq::empty(),
    }
}

/// The document with `attrs` as the attributes of `h`, if that is an element.
pub open spec fn with_node_attributes(d: DomView, h: Handle, attrs: Seq<AttributeView>) -> DomView {
    d.set_data(
        h,
        match d.data(h) {
            DataView::Element {
                name,
                attrs: _,
                template_contents,
                mathml_annotation_xml_integration_point,
            } => DataView::Element {
                name,
                attrs,
                template_contents,
                mathml_annotation_xml_integration_point,
            },
            other => other,
        },
    )
}

/// What [`attribute_index`] finds: an attribute with the name, and none before it.
pub proof fn lemma_attribute_index(attrs: Seq<AttributeView>, local: Seq<char>)
    ensures
        0 <= attribute_index(attrs, local) <= attrs.len(),
        forall|j: int|
            0 <= j < attribute_index(attrs, local) ==> (#[trigger] attrs[j]).name.local != local,
        attribute_index(attrs, local) < attrs.len() ==> attrs[attribute_index(
            attrs,
            local,
        )].name.local == local,
    decreases attrs.len(),
{
    if attrs.len() > 0 && attrs.first().name.local != local {
        let rest = attrs.drop_first();
        lemma_attribute_index(rest, local);
        assert forall|j: int| 0 <= j < attribute_index(attrs, local) implies (
        #[trigger] attrs[j]).name.local != local by {
            if j > 0 {
                assert(attrs[j] == rest[j - 1]);
            }
        }
    }
}

/// An attribute with the name, and none before it, is what [`attribute_index`] finds.
proof fn lemma_first_attribute(attrs: Seq<AttributeView>, local: Seq<char>, i: int)
    requires
        0 <= i <= attrs.len(),
        i < attrs.len() ==> attrs[i].name.local == local,
        forall|j: int| 0 <= j < i ==> (#[trigger] attrs[j]).name.local != local,
    ensures
        attribute_index(attrs, local) == i,
{
    lemma_attribute_index(attrs, local);
    let k = attribute_index(attrs, local);
    if k < i {
        assert(attrs[k].name.local != local);
    } else if i < k {
        assert(attrs[i].name.local != local);
    }
}

fn find_attribute(attr_name: &str, attrs: &Vec<Attribute>) -> (r: usize)
    ensures
        r == attribute_index(attribute_views(attrs@), attr_name@),
        r <= attrs@.len(),
{
    let ghost views = attribute_views(attrs@);
    let wanted: String = attr_name.to_owned();
    let mut i: usize = 0;
    while i < attrs.len() && attrs[i].name.local != wanted
        invariant
            views == attribute_views(attrs@),
            wanted@ == attr_name@,
            i <= attrs.len(),
            forall|j: int| 0 <= j < i ==> (#[trigger] views[j]).name.local != attr_name@,
        decreases attrs.len() - i,
    {
        assert(views[i as int].name.local != attr_name@);
        i += 1;
    }
    proof {
        lemma_first_attribute(views, attr_name@, i as int);
    }
    i
}

/// The local name of an element.
pub fn get_tag_name(dom: &RcDom, handle: Handle) -> (r: Option<String>)
    requires
        dom@.valid(handle),
    ensures
        match dom@.data(handle) {
            DataView::Element { name, .. } => r matches Some(tag) && tag@ == name.local,
            _ => r is None,
        },
{
    match &dom.nodes[handle.0].data {
        NodeData::Element { name, .. } => Some(name.local.clone()),
        _ => None,
    }
}

/// The value of the first attribute with the local name `attr_name`.
pub fn attr(attr_name: &str, attrs: &Vec<Attribute>) -> (r: Option<String>)
    ensures
        match r {
            Some(value) => attribute_value(attribute_views(attrs@), attr_name@) == Some(value@),
            None => attribute_value(attribute_views(attrs@), attr_name@) is None,
        },
{
    let i = find_attribute(attr_name, attrs);
    if i < attrs.len() {
        Some(attrs[i].value.clone())
    } else {
        None
    }
}

/// The value of the first attribute of a node with the local name `attr_name`.
pub fn get_attr(attr_name: &str, dom: &RcDom, handle: Handle) -> (r: Option<String>)
    requires
        dom@.valid(handle),
    ensures
        match r {
            Some(value) => attribute_value(node_attributes(dom@, handle), attr_name@) == Some(
                value@,
            ),
            None => attribute_value(node_attributes(dom@, handle), attr_name@) is None,
        },
{
    match &dom.nodes[handle.0].data {
        NodeData::Element { attrs, .. } => attr(attr_name, attrs),
        _ => None,
    }
}

/// Gives the first attribute of a node with the local name `attr_name` the value `value`. A node
/// that has no such attribute stays as it is.
pub fn set_attr(attr_name: &str, value: &str, dom: &mut RcDom, handle: Handle)
    requires
        old(dom)@.wf(),
        old(dom)@.valid(handle),
    ensures
        final(dom)@ == with_node_attributes(
            old(dom)@,
            handle,
            with_attribute_value(node_attributes(old(dom)@, handle), attr_name@, value@),
        ),
        final(dom)@.wf(),
{
    let ghost before = node_attributes(dom@, handle);
    let ghost wanted = with_attribute_value(before, attr_name@, value@);
    match &mut dom.nodes[handle.0].data {
        NodeData::Element { attrs, .. } => {
            let i = find_attribute(attr_name, attrs);
            if i < attrs.len() {
                attrs[i].value = value.to_owned();
            }
            assert(attribute_views(attrs@) =~= wanted);
        },
        _ => {},
    }
    assert(dom@ =~= with_node_attributes(old(dom)@, handle, wanted));
    proof {
        assert(old(dom)@.node_wf(old(dom)@.node(handle)));
        lemma_set_node_wf(old(dom)@, handle, dom@.node(handle));
    }
}

/// Takes the first attribute with the local name `attr_name` out of `attrs`.
pub fn clean_attr(attr_name: &str, attrs: &mut Vec<Attribute>)
    ensures
        attribute_views(final(attrs)@) == without_attribute(
            attribute_views(old(attrs)@),
            attr_name@,
        ),
{
    let i = find_attribute(attr_name, attrs);
    if i < attrs.len() {
        attrs.remove(i);
    }
    assert(attribute_views(attrs@) =~= without_attribute(
        attribute_views(old(attrs)@),
        attr_name@,
    ));
}

/// What [`set_attr`] writes, [`get_attr`] reads: an attribute that was there has the new value, one
/// that was not there still is not, and the other attributes have the values that they had.
pub proof fn law_set_attr_get_attr(
    attrs: Seq<AttributeView>,
    local: Seq<char>,
    value: Seq<char>,
    other: Seq<char>,
)
    ensures
        attribute_value(with_attribute_value(attrs, local, value), local) == (if attribute_value(
            attrs,
            local,
        ) is Some {
            Some(value)
        } else {
            None
        }),
        other != local ==> attribute_value(with_attribute_value(attrs, local, value), other)
            == attribute_value(attrs, other),
{
    let after = with_attribute_value(attrs, local, value);
    lemma_attribute_index(attrs, local);
    lemma_attribute_index(attrs, other);
    lemma_first_attribute(after, local, attribute_index(attrs, local));
    lemma_first_attribute(after, other, attribute_index(attrs, other));
}

/// After [`clean_attr`], an attribute that occurred once is gone; the others have the values that
/// they had.
pub proof fn law_clean_attr_attr(attrs: Seq<AttributeView>, local: Seq<char>, other: Seq<char>)
    requires
        forall|i: int, j: int|
            0 <= i < j < attrs.len() ==> !((#[trigger] attrs[i]).name.local == local && (
            #[trigger] attrs[j]).name.local == local),
    ensures
        attribute_value(without_attribute(attrs, local), local) is None,
        other != local ==> attribute_value(without_attribute(attrs, local), other)
            == attribute_value(attrs, other),
{
    let after = without_attribute(attrs, local);
    let i = attribute_index(attrs, local);
    let k = attribute_index(attrs, other);
    lemma_attribute_index(attrs, local);
    lemma_attribute_index(attrs, other);
    if i < attrs.len() {
        assert forall|j: int| 0 <= j < after.len() implies (#[trigger] after[j]).name.local
            != local by {
            if j < i {
                assert(after[j] == attrs[j]);
            } else {
                assert(after[j] == attrs[j + 1]);
                assert(attrs[i].name.local == local);
            }
        }
        lemma_first_attribute(after, local, after.len() as int);
        if other != local {
            let at = if k < i {
                k
            } else {
                k - 1
            };
            assert forall|j: int| 0 <= j < at implies (#[trigger] after[j]).name.local
                != other by {
                if j < i {
                    assert(after[j] == attrs[j]);
                } else {
                    assert(after[j] == attrs[j + 1]);
                }
            }
            lemma_first_attribute(after, other, at);
        }
    }
}

} // verus!
