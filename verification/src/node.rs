use vstd::prelude::*;

verus! {

/// A generational index identifying one node of the arena.
///
/// A handle carries the slot index together with the generation the slot
/// had when the node was allocated, so a handle can never silently alias a
/// node that reused the slot.  During construction no slot is ever freed or
/// reused, so every handle handed out stays valid until the whole container
/// is discarded.  Handles are plain values, compared by equality only.
#[derive(Clone, Copy, PartialEq, Eq, Structural, Debug, Hash)]
pub struct Handle {
    /// Index of the slot inside the arena.
    pub index: usize,
    /// Generation the slot had when this handle was created.
    pub generation: u64,
}

/// A qualified name: a namespace together with a local name.
#[derive(Clone, Debug)]
pub struct QualName {
    /// The namespace the name lives in.
    pub ns: String,
    /// The local part of the name.
    pub local: String,
}

impl QualName {
    /// Two qualified names are the same name when both parts agree.
    pub open spec fn eqv(self, other: QualName) -> bool {
        self.ns@ == other.ns@ && self.local@ == other.local@
    }

    /// Decides whether `self` and `other` are the same qualified name.
    pub fn same(&self, other: &QualName) -> (r: bool)
        ensures
            r == self.eqv(*other),
    {
        self.ns == other.ns && self.local == other.local
    }
}

/// One attribute of an element: a qualified name and a value.
#[derive(Clone, Debug)]
pub struct Attribute {
    /// The attribute's qualified name.
    pub name: QualName,
    /// The attribute's value.
    pub value: String,
}

/// Options fixed when an element is created.
#[derive(Clone, Copy, Debug)]
pub struct ElementFlags {
    /// The element is a template and owns an isolated content subtree.
    pub template: bool,
    /// The element is a MathML `annotation-xml` integration point.
    pub mathml_annotation_xml_integration_point: bool,
}

/// The document-wide compatibility classification chosen during parsing.
#[derive(Clone, Copy, PartialEq, Eq, Structural, Debug)]
pub enum QuirksMode {
    /// Standard behaviour.
    NoQuirks,
    /// A small set of compatibility behaviours.
    LimitedQuirks,
    /// Full compatibility behaviour.
    Quirks,
}

/// A caller broke the invocation contract: these are surfaced as explicit
/// failures, never as silent corruption of the tree.
#[derive(Clone, Copy, PartialEq, Eq, Structural, Debug)]
pub enum DomError {
    /// The handle does not name a live node of this arena.
    InvalidHandle,
    /// The operation needs an element node and the handle names another kind.
    NotAnElement,
    /// The element was not created with the template flag.
    NotATemplate,
    /// The sibling given as a reference point has no parent.
    NoParent,
}

/// What the tree builder appends: literal text, or a node it already owns.
#[derive(Debug)]
pub enum NodeOrText {
    /// Literal text, subject to coalescing with an adjacent text node.
    AppendText(String),
    /// An existing node, moved to the new position.
    AppendNode(Handle),
}

/// The different kinds of nodes in the DOM.
#[derive(Debug)]
#[allow(inconsistent_fields)]
pub enum NodeData {
    /// The `Document` itself: the root of the tree, or the isolated root of
    /// a template's content subtree.
    Document,
    /// A `DOCTYPE` with name, public id, and system id.
    Doctype {
        /// The doctype name.
        name: String,
        /// The public identifier.
        public_id: String,
        /// The system identifier.
        system_id: String,
    },
    /// A text node; adjacent text is merged into one buffer.
    Text {
        /// The text buffer.
        contents: String,
    },
    /// A comment.
    Comment {
        /// The comment text, immutable once created.
        contents: String,
    },
    /// An element with attributes.
    Element {
        /// The element's qualified name.
        name: QualName,
        /// The attributes, in order, unique by qualified name.
        attrs: Vec<Attribute>,
        /// For template elements, the isolated content subtree's root; it is
        /// never linked into the main tree.
        template_contents: Option<Handle>,
        /// Whether the element is a MathML integration point.
        mathml_annotation_xml_integration_point: bool,
    },
    /// A processing instruction.
    ProcessingInstruction {
        /// The instruction's target.
        target: String,
        /// The instruction's payload.
        contents: String,
    },
}

impl NodeData {
    /// The node is a text node.
    pub open spec fn is_text(self) -> bool {
        self matches NodeData::Text { .. }
    }

    /// The buffer of a text node.
    pub open spec fn text(self) -> Seq<char> {
        match self {
            NodeData::Text { contents } => contents@,
            _ => Seq::empty(),
        }
    }

    /// The node is an element.
    pub open spec fn is_element(self) -> bool {
        self matches NodeData::Element { .. }
    }

    /// The qualified name of an element.
    pub open spec fn elem_name_of(self) -> QualName {
        match self {
            NodeData::Element { name, .. } => name,
            _ => arbitrary(),
        }
    }

    /// The attribute list of an element.
    pub open spec fn attrs_of(self) -> Seq<Attribute> {
        match self {
            NodeData::Element { attrs, .. } => attrs@,
            _ => Seq::empty(),
        }
    }

    /// The template-contents handle of an element, if the element was
    /// created with the template flag.
    pub open spec fn template_of(self) -> Option<Handle> {
        match self {
            NodeData::Element { template_contents, .. } => template_contents,
            _ => None,
        }
    }

    /// The MathML integration-point flag of an element.
    pub open spec fn aip_of(self) -> bool {
        match self {
            NodeData::Element { mathml_annotation_xml_integration_point, .. } =>
                mathml_annotation_xml_integration_point,
            _ => false,
        }
    }
}

/// Whether some attribute in `attrs` carries the qualified name `n`.
pub open spec fn has_attr_named(attrs: Seq<Attribute>, n: QualName) -> bool {
    exists|i: int| 0 <= i < attrs.len() && #[trigger] attrs[i].name.eqv(n)
}

/// The subsequence of `incoming` whose names are absent from `existing`,
/// in order.  This is exactly what an attribute merge appends.
pub open spec fn missing_attrs(existing: Seq<Attribute>, incoming: Seq<Attribute>) -> Seq<
    Attribute,
>
    decreases incoming.len(),
{
    if incoming.len() == 0 {
        Seq::empty()
    } else {
        let rest = missing_attrs(existing, incoming.drop_last());
        if has_attr_named(existing, incoming.last().name) {
            rest
        } else {
            rest.push(incoming.last())
        }
    }
}

/// One record of the node store: the payload and the structural links.
///
/// The parent link and the child list are kept mutually consistent by the
/// topology operations: a node appears in its parent's child list exactly
/// once, and every listed child points back to the parent.
#[derive(Debug)]
pub struct Node {
    /// The node's payload.
    pub data: NodeData,
    /// The parent, if the node is attached.
    pub parent: Option<Handle>,
    /// The children, in order.
    pub children: Vec<Handle>,
}

} // verus!
