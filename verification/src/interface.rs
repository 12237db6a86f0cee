//! The vocabulary that tree construction shares with an HTML parser: qualified names, attributes,
//! quirks modes, element flags and node handles.

use vstd::prelude::*;

verus! {

/// The text of an optional string.
pub open spec fn optional_text(text: Option<String>) -> Option<Seq<char>> {
    match text {
        Some(t) => Some(t@),
        None => None,
    }
}

/// A fully qualified name of a tag or an attribute.
#[derive(Debug)]
pub struct QualName {
    pub prefix: Option<String>,
    pub ns: String,
    pub local: String,
}

/// The three texts of a [`QualName`].
#[verifier::ext_equal]
pub struct QualNameView {
    pub prefix: Option<Seq<char>>,
    pub ns: Seq<char>,
    pub local: Seq<char>,
}

impl View for QualName {
    type V = QualNameView;

    open spec fn view(&self) -> QualNameView {
        QualNameView { prefix: optional_text(self.prefix), ns: self.ns@, local: self.local@ }
    }
}

impl QualName {
    /// Basic constructor.
    pub fn new(prefix: Option<String>, ns: String, local: String) -> (r: QualName)
        ensures
            r@ == (QualNameView { prefix: optional_text(prefix), ns: ns@, local: local@ }),
    {
        QualName { prefix, ns, local }
    }

    /// Whether two names agree in prefix, namespace and local name.
    pub fn same(&self, other: &QualName) -> (r: bool)
        ensures
            r == (self@ == other@),
    {
        let same_prefix = match (&self.prefix, &other.prefix) {
            (Some(a), Some(b)) => *a == *b,
            (None, None) => true,
            _ => false,
        };
        same_prefix && self.ns == other.ns && self.local == other.local
    }
}

impl Clone for QualName {
    fn clone(&self) -> (r: QualName)
        ensures
            r == *self,
    {
        let prefix = match &self.prefix {
            Some(p) => Some(p.clone()),
            None => None,
        };
        QualName { prefix, ns: self.ns.clone(), local: self.local.clone() }
    }
}

/// A tag attribute, such as `class="test"` in `<div class="test">`.
#[derive(Debug)]
pub struct Attribute {
    pub name: QualName,
    pub value: String,
}

/// The name and the value of an [`Attribute`].
#[verifier::ext_equal]
pub struct AttributeView {
    pub name: QualNameView,
    pub value: Seq<char>,
}

impl View for Attribute {
    type V = AttributeView;

    open spec fn view(&self) -> AttributeView {
        AttributeView { name: self.name@, value: self.value@ }
    }
}

impl Clone for Attribute {
    fn clone(&self) -> (r: Attribute)
        ensures
            r == *self,
    {
        Attribute { name: self.name.clone(), value: self.value.clone() }
    }
}

/// The names and values of a list of attributes.
pub open spec fn attribute_views(attrs: Seq<Attribute>) -> Seq<AttributeView> {
    Seq::new(attrs.len(), |i: int| attrs[i]@)
}

/// Whether one of `attrs` has the local name `local`.
pub open spec fn has_attribute(attrs: Seq<AttributeView>, local: Seq<char>) -> bool {
    exists|i: int| 0 <= i < attrs.len() && (#[trigger] attrs[i]).name.local == local
}

/// Whether one of `attrs` has the qualified name `name`.
pub open spec fn has_qualified_attribute(attrs: Seq<AttributeView>, name: QualNameView) -> bool {
    exists|i: int| 0 <= i < attrs.len() && (#[trigger] attrs[i]).name == name
}

/// A copy of a list of attributes.
pub fn clone_attributes(attrs: &Vec<Attribute>) -> (r: Vec<Attribute>)
    ensures
        r@ == attrs@,
{
    let mut copy: Vec<Attribute> = Vec::new();
    for i in 0..attrs.len()
        invariant
            copy@ == attrs@.take(i as int),
    {
        copy.push(attrs[i].clone());
    }
    copy
}

/// Whether one of `attrs` has the local name `local`.
pub fn contains_attribute(attrs: &Vec<Attribute>, local: &str) -> (r: bool)
    ensures
        r == has_attribute(attribute_views(attrs@), local@),
{
    let wanted: String = local.to_owned();
    for i in 0..attrs.len()
        invariant
            wanted@ == local@,
            forall|j: int| 0 <= j < i ==> (#[trigger] attribute_views(attrs@)[j]).name.local != local@,
    {
        if attrs[i].name.local == wanted {
            assert(attribute_views(attrs@)[i as int].name.local == local@);
            return true;
        }
    }
    false
}

/// Whether one of `attrs` has the qualified name `name`.
pub fn contains_qualified_attribute(attrs: &Vec<Attribute>, name: &QualName) -> (r: bool)
    ensures
        r == has_qualified_attribute(attribute_views(attrs@), name@),
{
    for i in 0..attrs.len()
        invariant
            forall|j: int| 0 <= j < i ==> (#[trigger] attribute_views(attrs@)[j]).name != name@,
    {
        if attrs[i].name.same(name) {
            assert(attribute_views(attrs@)[i as int].name == name@);
            return true;
        }
    }
    false
}

/// A document's quirks mode, for compatibility with old browsers.
#[derive(Debug, Clone, Copy, PartialEq, Eq, Structural)]
pub enum QuirksMode {
    /// Full quirks mode.
    Quirks,
    /// Almost standards mode.
    LimitedQuirks,
    /// Standards mode.
    NoQuirks,
}

/// What is special about an element that is being created.
#[derive(Debug, Clone, Copy, PartialEq, Eq, Structural)]
pub struct ElementFlags {
    /// The element gets a document of its own as its template contents.
    pub template: bool,
    /// Recorded with the element.
    pub mathml_annotation_xml_integration_point: bool,
}

/// Names a node of an [`crate::rcdom::RcDom`].
#[derive(Debug, Clone, Copy, PartialEq, Eq, Structural)]
pub struct Handle(pub usize);

/// Something that can be inserted into a document.
#[derive(Debug)]
pub enum NodeOrText {
    AppendNode(Handle),
    AppendText(String),
}

} // verus!
