//! The document container and the mutation protocol the external
//! tree-construction algorithm drives.

use vstd::prelude::*;
use vstd::string::StringExecFns;

use crate::arena::insert_before_first;
use crate::arena::Arena;
use crate::node::has_attr_named;
use crate::node::missing_attrs;
use crate::node::Attribute;
use crate::node::DomError;
use crate::node::ElementFlags;
use crate::node::Handle;
use crate::node::NodeData;
use crate::node::NodeOrText;
use crate::node::QualName;
use crate::node::QuirksMode;

verus! {

/// The DOM itself; the result of parsing.
///
/// The container owns the arena of nodes, the handle of the root document
/// node (created once at construction and never destroyed), the ordered log
/// of diagnostics, and the detected quirks mode.
pub struct GenerationalArenaDom {
    /// Arena holding the nodes of the tree.
    pub arena: Arena,
    /// The `Document` itself.
    pub document: Handle,
    /// Errors that occurred during parsing, in order of report.
    pub errors: Vec<String>,
    /// The document's quirks mode.
    pub quirks_mode: QuirksMode,
}

/// Only the payload of `h` changed, from text to the same text extended by
/// `text`; every link, every generation and every other slot is untouched.
pub open spec fn text_merged(pre: Arena, post: Arena, h: Handle, text: Seq<char>) -> bool {
    &&& Arena::same_shape(pre, post)
    &&& pre.valid(h)
    &&& pre.data_of(h).is_text()
    &&& post.data_of(h).is_text()
    &&& post.data_of(h).text() == pre.data_of(h).text() + text
    &&& post.node_of(h).parent == pre.node_of(h).parent
    &&& post.node_of(h).children@ == pre.node_of(h).children@
    &&& forall|j: int|
        0 <= j < pre.slots@.len() && j != h.index as int ==> post.slots@[j] == #[trigger] pre.slots@[j]
}

/// A brand-new text node `h` holding `text` was allocated and appended as
/// the last child of `parent`; nothing else moved.
pub open spec fn fresh_text_appended(
    pre: Arena,
    post: Arena,
    parent: Handle,
    h: Handle,
    text: Seq<char>,
) -> bool {
    &&& h.index == pre.slots@.len()
    &&& post.slots@.len() == pre.slots@.len() + 1
    &&& post.valid(h)
    &&& post.data_of(h).is_text()
    &&& post.data_of(h).text() == text
    &&& post.parent_of(h) == Some(parent)
    &&& post.children_of(h) == Seq::<Handle>::empty()
    &&& post.children_of(parent) == pre.children_of(parent).push(h)
    &&& Arena::handles_preserved(pre, post)
    &&& forall|x: Handle| pre.valid(x) ==> post.data_of(x) == #[trigger] pre.data_of(x)
    &&& forall|x: Handle| pre.valid(x) ==> post.parent_of(x) == #[trigger] pre.parent_of(x)
    &&& forall|x: Handle|
        pre.valid(x) && x != parent ==> post.children_of(x) == #[trigger] pre.children_of(x)
}

/// A brand-new text node `h` holding `text` was allocated and spliced in
/// immediately before `sib` under `sib`'s parent `p`; nothing else moved.
pub open spec fn fresh_text_inserted(
    pre: Arena,
    post: Arena,
    sib: Handle,
    p: Handle,
    h: Handle,
    text: Seq<char>,
) -> bool {
    &&& h.index == pre.slots@.len()
    &&& post.slots@.len() == pre.slots@.len() + 1
    &&& post.valid(h)
    &&& post.data_of(h).is_text()
    &&& post.data_of(h).text() == text
    &&& post.parent_of(h) == Some(p)
    &&& post.children_of(h) == Seq::<Handle>::empty()
    &&& post.children_of(p) == insert_before_first(pre.children_of(p), sib, h)
    &&& Arena::handles_preserved(pre, post)
    &&& forall|x: Handle| pre.valid(x) ==> post.data_of(x) == #[trigger] pre.data_of(x)
    &&& forall|x: Handle| pre.valid(x) ==> post.parent_of(x) == #[trigger] pre.parent_of(x)
    &&& forall|x: Handle|
        pre.valid(x) && x != p ==> post.children_of(x) == #[trigger] pre.children_of(x)
}

/// The already-existing node `c` ended up as the last child of `parent`,
/// detached from wherever it hung before; no payload changed.
pub open spec fn append_node_effect(
    pre: GenerationalArenaDom,
    post: GenerationalArenaDom,
    parent: Handle,
    c: Handle,
) -> bool {
    &&& pre.arena.valid(parent) && pre.arena.valid(c)
    &&& Arena::same_shape(pre.arena, post.arena)
    &&& Arena::all_data_same(pre.arena, post.arena)
    &&& post.arena.parent_of(c) == Some(parent)
    &&& forall|x: Handle|
        pre.arena.valid(x) && x != c ==> post.arena.parent_of(x) == #[trigger] pre.arena.parent_of(
            x,
        )
    &&& post.arena.children_of(parent) == pre.arena.children_after_detach(parent, c).push(c)
    &&& forall|x: Handle|
        pre.arena.valid(x) && x != parent ==> post.arena.children_of(x)
            == #[trigger] pre.arena.children_after_detach(x, c)
}

/// The already-existing node `c` ended up spliced in immediately before
/// `sib` under `sib`'s parent; no payload changed.
pub open spec fn insert_node_effect(
    pre: GenerationalArenaDom,
    post: GenerationalArenaDom,
    sib: Handle,
    c: Handle,
) -> bool {
    &&& pre.arena.valid(sib) && pre.arena.valid(c)
    &&& pre.arena.parent_of(sib) is Some
    &&& Arena::same_shape(pre.arena, post.arena)
    &&& Arena::all_data_same(pre.arena, post.arena)
    &&& post.arena.parent_of(c) == pre.arena.parent_of(sib)
    &&& forall|x: Handle|
        pre.arena.valid(x) && x != c ==> post.arena.parent_of(x) == #[trigger] pre.arena.parent_of(
            x,
        )
    &&& forall|x: Handle|
        pre.arena.valid(x) ==> post.arena.children_of(x) == (
        if pre.arena.parent_of(sib) == Some(x) {
            insert_before_first(#[trigger] pre.arena.children_after_detach(x, c), sib, c)
        } else {
            pre.arena.children_after_detach(x, c)
        })
}

/// The node `h` ended up detached: root, log and quirks mode untouched,
/// its parent link cleared, its one occurrence removed from the old
/// parent's child list, and nothing else moved.
pub open spec fn detach_effect(
    pre: GenerationalArenaDom,
    post: GenerationalArenaDom,
    h: Handle,
) -> bool {
    &&& GenerationalArenaDom::container_same(pre, post)
    &&& pre.arena.valid(h)
    &&& Arena::same_shape(pre.arena, post.arena)
    &&& Arena::all_data_same(pre.arena, post.arena)
    &&& post.arena.parent_of(h) == None::<Handle>
    &&& forall|x: Handle|
        pre.arena.valid(x) && x != h ==> post.arena.parent_of(x) == #[trigger] pre.arena.parent_of(
            x,
        )
    &&& forall|x: Handle|
        pre.arena.valid(x) ==> post.arena.children_of(x)
            == #[trigger] pre.arena.children_after_detach(x, h)
}

impl GenerationalArenaDom {
    /// The container is well formed: the arena's links are mutually
    /// consistent and the root handle is live.
    pub open spec fn wf(self) -> bool {
        &&& self.arena.wf()
        &&& self.arena.valid(self.document)
    }

    /// Root handle, diagnostics and quirks mode are unchanged between the
    /// two states.
    pub open spec fn container_same(pre: GenerationalArenaDom, post: GenerationalArenaDom) -> bool {
        &&& post.document == pre.document
        &&& post.errors@ == pre.errors@
        &&& post.quirks_mode == pre.quirks_mode
    }

    /// Appending the text `text` under `parent` either merged it into the
    /// text node that was the last child, or appended one fresh text node.
    pub open spec fn append_text_effect(
        pre: GenerationalArenaDom,
        post: GenerationalArenaDom,
        parent: Handle,
        text: Seq<char>,
    ) -> bool {
        &&& Self::container_same(pre, post)
        &&& pre.arena.valid(parent)
        &&& {
            let cs = pre.arena.children_of(parent);
            if cs.len() > 0 && pre.arena.data_of(cs.last()).is_text() {
                text_merged(pre.arena, post.arena, cs.last(), text)
            } else {
                exists|h: Handle|
                    #[trigger] fresh_text_appended(pre.arena, post.arena, parent, h, text)
            }
        }
    }

    /// The position of `sib` in its parent's child list.
    pub open spec fn sibling_position(pre: GenerationalArenaDom, sib: Handle, p: Handle) -> int {
        choose|k: int|
            0 <= k < pre.arena.children_of(p).len() && pre.arena.children_of(p)[k] == sib
    }

    /// Inserting the text `text` before `sib` either merged it into the
    /// text node standing immediately before the insertion point, or
    /// spliced one fresh text node in there.
    pub open spec fn append_before_text_effect(
        pre: GenerationalArenaDom,
        post: GenerationalArenaDom,
        sib: Handle,
        text: Seq<char>,
    ) -> bool {
        &&& Self::container_same(pre, post)
        &&& pre.arena.valid(sib)
        &&& pre.arena.parent_of(sib) matches Some(p) && {
            let cs = pre.arena.children_of(p);
            let k = Self::sibling_position(pre, sib, p);
            if k > 0 && pre.arena.data_of(cs[k - 1]).is_text() {
                text_merged(pre.arena, post.arena, cs[k - 1], text)
            } else {
                exists|h: Handle|
                    #[trigger] fresh_text_inserted(pre.arena, post.arena, sib, p, h, text)
            }
        }
    }

    /// A fresh element was allocated, detached, with the given name,
    /// attributes and flags; with the template flag a second, isolated
    /// document node was allocated for its contents.
    pub open spec fn create_element_effect(
        pre: GenerationalArenaDom,
        post: GenerationalArenaDom,
        name: QualName,
        attrs: Seq<Attribute>,
        flags: ElementFlags,
        h: Handle,
    ) -> bool {
        &&& Self::container_same(pre, post)
        &&& post.arena.valid(h)
        &&& post.arena.parent_of(h) == None::<Handle>
        &&& post.arena.children_of(h) == Seq::<Handle>::empty()
        &&& post.arena.data_of(h).is_element()
        &&& post.arena.data_of(h).elem_name_of() == name
        &&& post.arena.data_of(h).attrs_of() == attrs
        &&& post.arena.data_of(h).aip_of() == flags.mathml_annotation_xml_integration_point
        &&& forall|j: int|
            0 <= j < pre.arena.slots@.len() ==> post.arena.slots@[j] == #[trigger] pre.arena.slots@[j]
        &&& if flags.template {
            &&& post.arena.slots@.len() == pre.arena.slots@.len() + 2
            &&& h.index == pre.arena.slots@.len() + 1
            &&& post.arena.data_of(h).template_of() matches Some(t) && {
                &&& t.index == pre.arena.slots@.len()
                &&& post.arena.valid(t)
                &&& post.arena.data_of(t) is Document
                &&& post.arena.parent_of(t) == None::<Handle>
                &&& post.arena.children_of(t) == Seq::<Handle>::empty()
            }
        } else {
            &&& post.arena.slots@.len() == pre.arena.slots@.len() + 1
            &&& h.index == pre.arena.slots@.len()
            &&& post.arena.data_of(h).template_of() is None
        }
    }
}

/// Merges `text` into `prev`'s buffer if `prev` is a text node; reports
/// whether it did.  Nothing changes when `prev` is of another kind.
fn append_to_existing_text(arena: &mut Arena, prev: Handle, text: &str) -> (merged: bool)
    requires
        old(arena).wf(),
        old(arena).valid(prev),
    ensures
        final(arena).wf(),
        merged == old(arena).data_of(prev).is_text(),
        if merged {
            text_merged(*old(arena), *final(arena), prev, text@)
        } else {
            *final(arena) == *old(arena)
        },
{
    let is_text = match arena.get(prev) {
        Ok(n) => match &n.data {
            NodeData::Text { .. } => true,
            _ => false,
        },
        Err(_) => false,
    };
    if !is_text {
        return false;
    }
    let mut node = arena.take_node(prev.index);
    let d = node.data;
    let new_data = match d {
        NodeData::Text { contents } => {
            let mut c2 = contents;
            c2.append(text);
            NodeData::Text { contents: c2 }
        },
        other => other,
    };
    node.data = new_data;
    arena.set_node(prev.index, node);
    proof {
        let s0 = *old(arena);
        let s1 = *arena;
        assert(Arena::same_shape(s0, s1));
        assert forall|i: int| 0 <= i < s1.slots@.len() implies s1.handle_at(i) == s0.handle_at(
            i,
        ) by {}
        assert forall|i: int| 0 <= i < s1.slots@.len() implies #[trigger] s1.slot_ok(i) by {
            assert(s0.slot_ok(i));
            assert(s1.slots@[i].node.parent == s0.slots@[i].node.parent);
            assert(s1.slots@[i].node.children@ == s0.slots@[i].node.children@);
            assert(s1.parent_ok(i)) by {
                match s1.slots@[i].node.parent {
                    Some(q) => {
                        assert(s0.children_of(q).contains(s0.handle_at(i)));
                        assert(s1.children_of(q) == s0.children_of(q));
                    },
                    None => {},
                }
            }
            assert(s1.children_ok(i)) by {
                let cs = s1.slots@[i].node.children@;
                assert forall|j: int| 0 <= j < cs.len() implies s1.valid(#[trigger] cs[j])
                    && s1.node_of(cs[j]).parent == Some(s1.handle_at(i)) by {
                    assert(s0.children_ok(i));
                    assert(s1.node_of(cs[j]).parent == s0.node_of(cs[j]).parent);
                }
            }
        }
        assert(text_merged(s0, s1, prev, text@));
    }
    true
}

impl GenerationalArenaDom {
    /// Returns the immutable root handle; always succeeds.
    pub fn get_document(&self) -> (h: Handle)
        ensures
            h == self.document,
    {
        self.document
    }

    /// Appends a diagnostic message to the error log; never fails and
    /// never interrupts construction.
    pub fn parse_error(&mut self, msg: String)
        ensures
            final(self).errors@ == old(self).errors@.push(msg),
            final(self).arena == old(self).arena,
            final(self).document == old(self).document,
            final(self).quirks_mode == old(self).quirks_mode,
    {
        self.errors.push(msg);
    }

    /// Overwrites the container's quirks-mode value.
    pub fn set_quirks_mode(&mut self, mode: QuirksMode)
        ensures
            final(self).quirks_mode == mode,
            final(self).arena == old(self).arena,
            final(self).document == old(self).document,
            final(self).errors@ == old(self).errors@,
    {
        self.quirks_mode = mode;
    }

    /// Identity test of two handles: the same node, not equal payloads.
    pub fn same_node(&self, x: &Handle, y: &Handle) -> (r: bool)
        ensures
            r == (x == y),
    {
        *x == *y
    }

    /// Hands the completed container back as the final artifact.
    pub fn finish(self) -> (r: GenerationalArenaDom)
        ensures
            r == self,
    {
        self
    }

    /// The payload of the node `target` names.  Fails exactly on a stale
    /// or foreign handle.
    pub fn get_node(&self, target: &Handle) -> (r: Result<&NodeData, DomError>)
        ensures
            match r {
                Ok(d) => self.arena.valid(*target) && *d == self.arena.data_of(*target),
                Err(e) => e == DomError::InvalidHandle && !self.arena.valid(*target),
            },
    {
        match self.arena.get(*target) {
            Ok(n) => Ok(&n.data),
            Err(e) => Err(e),
        }
    }

    /// The handle of the node standing immediately before `target` among
    /// its siblings, if any.
    pub fn preceding_node(&self, target: &Handle) -> (r: Result<Option<Handle>, DomError>)
        requires
            self.wf(),
        ensures
            match r {
                Ok(o) => {
                    &&& self.arena.valid(*target)
                    &&& match self.arena.parent_of(*target) {
                        None => o is None,
                        Some(p) => {
                            let k = Self::sibling_position(*self, *target, p);
                            if k > 0 {
                                o == Some(self.arena.children_of(p)[k - 1])
                            } else {
                                o is None
                            }
                        },
                    }
                },
                Err(e) => e == DomError::InvalidHandle && !self.arena.valid(*target),
            },
    {
        let node = match self.arena.get(*target) {
            Ok(n) => n,
            Err(e) => {
                return Err(e);
            },
        };
        let p = match node.parent {
            None => {
                return Ok(None);
            },
            Some(p) => p,
        };
        proof {
            assert(self.arena.slot_ok(target.index as int));
            assert(self.arena.handle_at(target.index as int) == *target);
        }
        let k = self.arena.find_child(p, *target);
        proof {
            assert(self.arena.slot_ok(p.index as int));
            let kk = Self::sibling_position(*self, *target, p);
            assert(self.arena.children_of(p)[k as int] == *target);
            assert(0 <= kk < self.arena.children_of(p).len() && self.arena.children_of(p)[kk]
                == *target);
            assert(kk == k as int);
        }
        if k == 0 {
            Ok(None)
        } else {
            let node2 = match self.arena.get(p) {
                Ok(n) => n,
                Err(_) => {
                    return Err(DomError::InvalidHandle);
                },
            };
            Ok(Some(node2.children[k - 1]))
        }
    }

    /// The qualified name of the element `target` names.
    pub fn elem_name(&self, target: &Handle) -> (r: Result<&QualName, DomError>)
        ensures
            match r {
                Ok(q) => {
                    &&& self.arena.valid(*target)
                    &&& self.arena.data_of(*target).is_element()
                    &&& *q == self.arena.data_of(*target).elem_name_of()
                },
                Err(e) => if !self.arena.valid(*target) {
                    e == DomError::InvalidHandle
                } else {
                    e == DomError::NotAnElement && !self.arena.data_of(*target).is_element()
                },
            },
    {
        let node = match self.arena.get(*target) {
            Ok(n) => n,
            Err(e) => {
                return Err(e);
            },
        };
        match &node.data {
            NodeData::Element { name, .. } => Ok(name),
            _ => Err(DomError::NotAnElement),
        }
    }

    /// The recorded template-contents handle of the element `target`
    /// names.  Fails with `NotATemplate` when `target` is no element or
    /// carries no template contents.
    pub fn get_template_contents(&self, target: &Handle) -> (r: Result<Handle, DomError>)
        ensures
            match r {
                Ok(t) => {
                    &&& self.arena.valid(*target)
                    &&& self.arena.data_of(*target).is_element()
                    &&& self.arena.data_of(*target).template_of() == Some(t)
                },
                Err(e) => if !self.arena.valid(*target) {
                    e == DomError::InvalidHandle
                } else {
                    e == DomError::NotATemplate && (!self.arena.data_of(*target).is_element()
                        || self.arena.data_of(*target).template_of() is None)
                },
            },
    {
        let node = match self.arena.get(*target) {
            Ok(n) => n,
            Err(e) => {
                return Err(e);
            },
        };
        match &node.data {
            NodeData::Element { template_contents, .. } => match template_contents {
                Some(t) => Ok(*t),
                None => Err(DomError::NotATemplate),
            },
            _ => Err(DomError::NotATemplate),
        }
    }

    /// The fixed MathML integration-point flag of the element `target`
    /// names.
    pub fn is_mathml_annotation_xml_integration_point(&self, target: &Handle) -> (r: Result<
        bool,
        DomError,
    >)
        ensures
            match r {
                Ok(b) => {
                    &&& self.arena.valid(*target)
                    &&& self.arena.data_of(*target).is_element()
                    &&& b == self.arena.data_of(*target).aip_of()
                },
                Err(e) => if !self.arena.valid(*target) {
                    e == DomError::InvalidHandle
                } else {
                    e == DomError::NotAnElement && !self.arena.data_of(*target).is_element()
                },
            },
    {
        let node = match self.arena.get(*target) {
            Ok(n) => n,
            Err(e) => {
                return Err(e);
            },
        };
        match &node.data {
            NodeData::Element { mathml_annotation_xml_integration_point, .. } => Ok(
                *mathml_annotation_xml_integration_point,
            ),
            _ => Err(DomError::NotAnElement),
        }
    }

    /// Allocates an element node, detached.  With the template flag an
    /// isolated document node is allocated first and recorded as the
    /// element's template contents; it is never linked into the tree.
    pub fn create_element(
        &mut self,
        name: QualName,
        attrs: Vec<Attribute>,
        flags: ElementFlags,
    ) -> (h: Handle)
        requires
            old(self).wf(),
        ensures
            final(self).wf(),
            Arena::handles_preserved(old(self).arena, final(self).arena),
            Self::create_element_effect(*old(self), *final(self), name, attrs@, flags, h),
    {
        let template_inner = if flags.template {
            Some(self.arena.new_node(NodeData::Document))
        } else {
            None
        };
        let h = self.arena.new_node(
            NodeData::Element {
                name,
                attrs,
                template_contents: template_inner,
                mathml_annotation_xml_integration_point:
                    flags.mathml_annotation_xml_integration_point,
            },
        );
        h
    }

    /// Allocates a comment node, detached.
    pub fn create_comment(&mut self, text: String) -> (h: Handle)
        requires
            old(self).wf(),
        ensures
            final(self).wf(),
            Arena::handles_preserved(old(self).arena, final(self).arena),
            Self::container_same(*old(self), *final(self)),
            final(self).arena.slots@.len() == old(self).arena.slots@.len() + 1,
            h.index == old(self).arena.slots@.len(),
            final(self).arena.valid(h),
            final(self).arena.data_of(h) == (NodeData::Comment { contents: text }),
            final(self).arena.parent_of(h) == None::<Handle>,
            final(self).arena.children_of(h) == Seq::<Handle>::empty(),
            forall|j: int|
                0 <= j < old(self).arena.slots@.len() ==> final(self).arena.slots@[j]
                    == #[trigger] old(self).arena.slots@[j],
    {
        self.arena.new_node(NodeData::Comment { contents: text })
    }

    /// Allocates a processing-instruction node, detached.
    pub fn create_pi(&mut self, target: String, data: String) -> (h: Handle)
        requires
            old(self).wf(),
        ensures
            final(self).wf(),
            Arena::handles_preserved(old(self).arena, final(self).arena),
            Self::container_same(*old(self), *final(self)),
            final(self).arena.slots@.len() == old(self).arena.slots@.len() + 1,
            h.index == old(self).arena.slots@.len(),
            final(self).arena.valid(h),
            final(self).arena.data_of(h) == (NodeData::ProcessingInstruction {
                target,
                contents: data,
            }),
            final(self).arena.parent_of(h) == None::<Handle>,
            final(self).arena.children_of(h) == Seq::<Handle>::empty(),
            forall|j: int|
                0 <= j < old(self).arena.slots@.len() ==> final(self).arena.slots@[j]
                    == #[trigger] old(self).arena.slots@[j],
    {
        self.arena.new_node(NodeData::ProcessingInstruction { target, contents: data })
    }
}

impl Default for GenerationalArenaDom {
    /// A fresh container: an arena holding only the root document node, an
    /// empty error log, and no quirks.
    fn default() -> (d: GenerationalArenaDom)
        ensures
            d.wf(),
            d.arena.slots@.len() == 1,
            d.document.index == 0,
            d.arena.data_of(d.document) is Document,
            d.arena.parent_of(d.document) == None::<Handle>,
            d.arena.children_of(d.document) == Seq::<Handle>::empty(),
            d.errors@ == Seq::<String>::empty(),
            d.quirks_mode == QuirksMode::NoQuirks,
    {
        let mut arena = Arena::empty();
        let document = arena.new_node(NodeData::Document);
        GenerationalArenaDom { arena, document, errors: Vec::new(), quirks_mode: QuirksMode::NoQuirks }
    }
}

impl GenerationalArenaDom {
    /// Appends `child` under `parent`: literal text is merged into the
    /// text node that is the last child if there is one, and otherwise
    /// becomes one fresh text node; an existing node is moved to the end
    /// of `parent`'s child list.
    pub fn append(&mut self, parent: &Handle, child: NodeOrText) -> (r: Result<(), DomError>)
        requires
            old(self).wf(),
            child matches NodeOrText::AppendNode(c) ==> c != *parent,
        ensures
            final(self).wf(),
            Arena::handles_preserved(old(self).arena, final(self).arena),
            match r {
                Ok(()) => match child {
                    NodeOrText::AppendText(t) => Self::append_text_effect(
                        *old(self),
                        *final(self),
                        *parent,
                        t@,
                    ),
                    NodeOrText::AppendNode(c) => Self::container_same(*old(self), *final(self))
                        && append_node_effect(*old(self), *final(self), *parent, c),
                },
                Err(e) => {
                    &&& e == DomError::InvalidHandle
                    &&& *final(self) == *old(self)
                    &&& !old(self).arena.valid(*parent) || (child matches NodeOrText::AppendNode(c)
                        && !old(self).arena.valid(c))
                },
            },
    {
        if !self.arena.is_valid(*parent) {
            return Err(DomError::InvalidHandle);
        }
        match child {
            NodeOrText::AppendText(text) => {
                let last_opt = {
                    let node = match self.arena.get(*parent) {
                        Ok(n) => n,
                        Err(_) => {
                            return Err(DomError::InvalidHandle);
                        },
                    };
                    if node.children.len() > 0 {
                        Some(node.children[node.children.len() - 1])
                    } else {
                        None
                    }
                };
                if let Some(last) = last_opt {
                    proof {
                        self.arena.lemma_wf_child(
                            *parent,
                            self.arena.children_of(*parent).len() - 1,
                        );
                        assert(last == self.arena.children_of(*parent).last());
                    }
                    if append_to_existing_text(&mut self.arena, last, text.as_str()) {
                        return Ok(());
                    }
                }
                let ghost s0 = *old(self);
                let h = self.arena.new_node(NodeData::Text { contents: text });
                let ghost a1 = self.arena;
                proof {
                    assert(self.arena.valid(*parent));
                    assert(h != *parent) by {
                        if h == *parent {
                            assert(s0.arena.valid(*parent));
                        }
                    }
                }
                let res = self.arena.append_child(*parent, h);
                proof {
                    assert(res is Ok);
                    let a0 = s0.arena;
                    let a2 = self.arena;
                    assert(a1.parent_of(h) == None::<Handle>);
                    assert(fresh_text_appended(a0, a2, *parent, h, text@)) by {
                        assert(Arena::same_shape(a1, a2));
                        assert(a2.slots@.len() == a0.slots@.len() + 1);
                        assert(a2.valid(h));
                        assert(a1.data_of(h) == (NodeData::Text { contents: text }));
                        assert(a2.data_of(h) == a1.data_of(h));
                        assert(a2.parent_of(h) == Some(*parent));
                        assert(a2.children_of(h) == a1.children_after_detach(h, h));
                        assert(a2.children_of(h) == Seq::<Handle>::empty());
                        assert(Arena::handles_preserved(a0, a2)) by {
                            assert forall|j: int| 0 <= j < a0.slots@.len() implies a2.slots@[j].generation
                                == #[trigger] a0.slots@[j].generation by {
                                assert(a1.slots@[j] == a0.slots@[j]);
                            }
                        }
                        assert(a2.children_of(*parent) == a1.children_after_detach(
                            *parent,
                            h,
                        ).push(h));
                        assert(a1.children_after_detach(*parent, h) == a1.children_of(*parent));
                        assert(a1.children_of(*parent) == a0.children_of(*parent));
                        assert forall|x: Handle| a0.valid(x) implies a2.data_of(x)
                            == #[trigger] a0.data_of(x) by {
                            assert(a1.valid(x));
                            assert(a1.data_of(x) == a0.data_of(x));
                        }
                        assert forall|x: Handle| a0.valid(x) implies a2.parent_of(x)
                            == #[trigger] a0.parent_of(x) by {
                            assert(a1.valid(x));
                            assert(x != h) by {
                                if x == h {
                                    assert(a0.valid(h));
                                }
                            }
                            assert(a1.parent_of(x) == a0.parent_of(x));
                        }
                        assert forall|x: Handle| a0.valid(x) && x != *parent implies a2.children_of(
                            x,
                        ) == #[trigger] a0.children_of(x) by {
                            assert(a1.valid(x));
                            assert(a2.children_of(x) == a1.children_after_detach(x, h));
                            assert(a1.children_after_detach(x, h) == a1.children_of(x));
                            assert(a1.children_of(x) == a0.children_of(x));
                        }
                    }
                }
                Ok(())
            },
            NodeOrText::AppendNode(c) => {
                if !self.arena.is_valid(c) {
                    return Err(DomError::InvalidHandle);
                }
                let res = self.arena.append_child(*parent, c);
                proof {
                    assert(res is Ok);
                }
                Ok(())
            },
        }
    }

    /// Inserts `child` immediately before `sibling`: literal text is
    /// merged into the text node standing immediately before the insertion
    /// point if there is one, and otherwise becomes one fresh text node;
    /// an existing node is spliced in as it stands.  The caller guarantees
    /// no text node ever stands directly after the insertion point, so
    /// coalescing is only checked on the preceding side.
    pub fn append_before_sibling(&mut self, sibling: &Handle, child: NodeOrText) -> (r: Result<
        (),
        DomError,
    >)
        requires
            old(self).wf(),
            child matches NodeOrText::AppendNode(c) ==> c != *sibling,
        ensures
            final(self).wf(),
            Arena::handles_preserved(old(self).arena, final(self).arena),
            match r {
                Ok(()) => match child {
                    NodeOrText::AppendText(t) => Self::append_before_text_effect(
                        *old(self),
                        *final(self),
                        *sibling,
                        t@,
                    ),
                    NodeOrText::AppendNode(c) => Self::container_same(*old(self), *final(self))
                        && insert_node_effect(*old(self), *final(self), *sibling, c),
                },
                Err(e) => {
                    &&& *final(self) == *old(self)
                    &&& if !old(self).arena.valid(*sibling) || (child matches
                    NodeOrText::AppendNode(c) && !old(self).arena.valid(c)) {
                        e == DomError::InvalidHandle
                    } else {
                        e == DomError::NoParent && old(self).arena.parent_of(*sibling) is None
                    }
                },
            },
    {
        if !self.arena.is_valid(*sibling) {
            return Err(DomError::InvalidHandle);
        }
        let par_opt = {
            let node = match self.arena.get(*sibling) {
                Ok(n) => n,
                Err(_) => {
                    return Err(DomError::InvalidHandle);
                },
            };
            node.parent
        };
        match child {
            NodeOrText::AppendText(text) => {
                let p = match par_opt {
                    None => {
                        return Err(DomError::NoParent);
                    },
                    Some(p) => p,
                };
                proof {
                    assert(self.arena.slot_ok(sibling.index as int));
                    assert(self.arena.handle_at(sibling.index as int) == *sibling);
                    assert(self.arena.valid(p));
                    assert(self.arena.children_of(p).contains(*sibling));
                }
                let k = self.arena.find_child(p, *sibling);
                proof {
                    let kk = Self::sibling_position(*self, *sibling, p);
                    assert(self.arena.children_of(p)[k as int] == *sibling);
                    assert(self.arena.slot_ok(p.index as int));
                    assert(kk == k as int);
                }
                if k > 0 {
                    let prev = {
                        let node2 = match self.arena.get(p) {
                            Ok(n) => n,
                            Err(_) => {
                                return Err(DomError::InvalidHandle);
                            },
                        };
                        node2.children[k - 1]
                    };
                    proof {
                        self.arena.lemma_wf_child(p, k - 1 as int);
                    }
                    if append_to_existing_text(&mut self.arena, prev, text.as_str()) {
                        return Ok(());
                    }
                }
                let ghost s0 = *old(self);
                let h = self.arena.new_node(NodeData::Text { contents: text });
                let ghost a1 = self.arena;
                proof {
                    assert(self.arena.valid(*sibling));
                    assert(h != *sibling) by {
                        if h == *sibling {
                            assert(s0.arena.valid(*sibling));
                        }
                    }
                }
                let res = self.arena.insert_before(*sibling, h);
                proof {
                    assert(res is Ok);
                    let a0 = s0.arena;
                    let a2 = self.arena;
                    assert(a1.parent_of(h) == None::<Handle>);
                    assert(a1.parent_of(*sibling) == Some(p));
                    assert(fresh_text_inserted(a0, a2, *sibling, p, h, text@)) by {
                        assert(Arena::same_shape(a1, a2));
                        assert(a2.slots@.len() == a0.slots@.len() + 1);
                        assert(a2.valid(h));
                        assert(a1.data_of(h) == (NodeData::Text { contents: text }));
                        assert(a2.data_of(h) == a1.data_of(h));
                        assert(a2.children_of(h) == (
                        if a1.parent_of(*sibling) == Some(h) {
                            insert_before_first(a1.children_after_detach(h, h), *sibling, h)
                        } else {
                            a1.children_after_detach(h, h)
                        }));
                        assert(a1.parent_of(*sibling) != Some(h)) by {
                            if a1.parent_of(*sibling) == Some(h) {
                                assert(s0.wf());
                                assert(a0.valid(*sibling));
                                assert(a1.valid(*sibling));
                                assert(a0.parent_of(*sibling) == a1.parent_of(*sibling));
                                assert(a0.slot_ok(sibling.index as int));
                                assert(a0.valid(h));
                            }
                        }
                        assert(a2.children_of(h) == Seq::<Handle>::empty());
                        assert(Arena::handles_preserved(a0, a2)) by {
                            assert forall|j: int| 0 <= j < a0.slots@.len() implies a2.slots@[j].generation
                                == #[trigger] a0.slots@[j].generation by {
                                assert(a1.slots@[j] == a0.slots@[j]);
                            }
                        }
                        assert(a2.children_of(p) == insert_before_first(
                            a1.children_after_detach(p, h),
                            *sibling,
                            h,
                        ));
                        assert(a1.children_after_detach(p, h) == a1.children_of(p));
                        assert(a1.children_of(p) == a0.children_of(p));
                        assert(a2.parent_of(h) == Some(p));
                        assert forall|x: Handle| a0.valid(x) implies a2.data_of(x)
                            == #[trigger] a0.data_of(x) by {
                            assert(a1.valid(x));
                            assert(a1.data_of(x) == a0.data_of(x));
                        }
                        assert forall|x: Handle| a0.valid(x) implies a2.parent_of(x)
                            == #[trigger] a0.parent_of(x) by {
                            assert(a1.valid(x));
                            assert(x != h) by {
                                if x == h {
                                    assert(a0.valid(h));
                                }
                            }
                            assert(a1.parent_of(x) == a0.parent_of(x));
                        }
                        assert forall|x: Handle| a0.valid(x) && x != p implies a2.children_of(x)
                            == #[trigger] a0.children_of(x) by {
                            assert(a1.valid(x));
                            assert(a2.children_of(x) == a1.children_after_detach(x, h));
                            assert(a1.children_after_detach(x, h) == a1.children_of(x));
                            assert(a1.children_of(x) == a0.children_of(x));
                        }
                    }
                    let cs = a0.children_of(p);
                    let kk = Self::sibling_position(s0, *sibling, p);
                    assert(!(kk > 0 && a0.data_of(cs[kk - 1]).is_text()));
                }
                Ok(())
            },
            NodeOrText::AppendNode(c) => {
                if !self.arena.is_valid(c) {
                    return Err(DomError::InvalidHandle);
                }
                if par_opt.is_none() {
                    return Err(DomError::NoParent);
                }
                let res = self.arena.insert_before(*sibling, c);
                proof {
                    assert(res is Ok);
                }
                Ok(())
            },
        }
    }

    /// Appends `child` relative to `element` when `element` is attached,
    /// and under `prev_element` otherwise: the foster-parenting choice the
    /// tree builder cannot make statically.
    pub fn append_based_on_parent_node(
        &mut self,
        element: &Handle,
        prev_element: &Handle,
        child: NodeOrText,
    ) -> (r: Result<(), DomError>)
        requires
            old(self).wf(),
            old(self).arena.valid(*element) && old(self).arena.parent_of(*element) is Some ==> (
            child matches NodeOrText::AppendNode(c) ==> c != *element),
            old(self).arena.valid(*element) && old(self).arena.parent_of(*element) is None ==> (
            child matches NodeOrText::AppendNode(c) ==> c != *prev_element),
        ensures
            final(self).wf(),
            Arena::handles_preserved(old(self).arena, final(self).arena),
            match r {
                Ok(()) => {
                    &&& old(self).arena.valid(*element)
                    &&& if old(self).arena.parent_of(*element) is Some {
                        match child {
                            NodeOrText::AppendText(t) => Self::append_before_text_effect(
                                *old(self),
                                *final(self),
                                *element,
                                t@,
                            ),
                            NodeOrText::AppendNode(c) => Self::container_same(
                                *old(self),
                                *final(self),
                            ) && insert_node_effect(*old(self), *final(self), *element, c),
                        }
                    } else {
                        match child {
                            NodeOrText::AppendText(t) => Self::append_text_effect(
                                *old(self),
                                *final(self),
                                *prev_element,
                                t@,
                            ),
                            NodeOrText::AppendNode(c) => Self::container_same(
                                *old(self),
                                *final(self),
                            ) && append_node_effect(*old(self), *final(self), *prev_element, c),
                        }
                    }
                },
                Err(e) => {
                    &&& e == DomError::InvalidHandle
                    &&& *final(self) == *old(self)
                    &&& {
                        ||| !old(self).arena.valid(*element)
                        ||| old(self).arena.valid(*element) && old(self).arena.parent_of(
                            *element,
                        ) is Some && (child matches NodeOrText::AppendNode(c) && !old(
                            self,
                        ).arena.valid(c))
                        ||| old(self).arena.valid(*element) && old(self).arena.parent_of(
                            *element,
                        ) is None && (!old(self).arena.valid(*prev_element) || (child matches
                        NodeOrText::AppendNode(c2) && !old(self).arena.valid(c2)))
                    }
                },
            },
    {
        let has_parent = {
            let node = match self.arena.get(*element) {
                Ok(n) => n,
                Err(_) => {
                    return Err(DomError::InvalidHandle);
                },
            };
            node.parent.is_some()
        };
        if has_parent {
            let r2 = self.append_before_sibling(element, child);
            match r2 {
                Ok(()) => Ok(()),
                Err(e) => {
                    proof {
                        assert(e != DomError::NoParent);
                    }
                    Err(e)
                },
            }
        } else {
            self.append(prev_element, child)
        }
    }

    /// Allocates a doctype node and appends it as the last child of the
    /// root document handle, whatever else the tree holds.
    pub fn append_doctype_to_document(&mut self, name: String, public_id: String, system_id: String)
        requires
            old(self).wf(),
        ensures
            final(self).wf(),
            Arena::handles_preserved(old(self).arena, final(self).arena),
            Self::container_same(*old(self), *final(self)),
            final(self).arena.slots@.len() == old(self).arena.slots@.len() + 1,
            final(self).arena.children_of(final(self).document) == old(self).arena.children_of(
                old(self).document,
            ).push(final(self).arena.children_of(final(self).document).last()),
            final(self).arena.children_of(final(self).document).last().index == old(
                self,
            ).arena.slots@.len(),
            final(self).arena.data_of(final(self).arena.children_of(final(self).document).last())
                == (NodeData::Doctype { name, public_id, system_id }),
            final(self).arena.parent_of(
                final(self).arena.children_of(final(self).document).last(),
            ) == Some(final(self).document),
            forall|x: Handle|
                old(self).arena.valid(x) ==> final(self).arena.data_of(x) == #[trigger] old(
                    self,
                ).arena.data_of(x),
            forall|x: Handle|
                old(self).arena.valid(x) && x != old(self).document
                    ==> final(self).arena.children_of(x) == #[trigger] old(
                    self,
                ).arena.children_of(x),
            forall|x: Handle|
                old(self).arena.valid(x) ==> final(self).arena.parent_of(x) == #[trigger] old(
                    self,
                ).arena.parent_of(x),
    {
        let ghost s0 = *old(self);
        let h = self.arena.new_node(NodeData::Doctype { name, public_id, system_id });
        let ghost a1 = self.arena;
        let doc = self.document;
        proof {
            assert(self.arena.valid(doc));
            assert(h != doc) by {
                if h == doc {
                    assert(s0.arena.valid(doc));
                }
            }
        }
        let res = self.arena.append_child(doc, h);
        proof {
            assert(res is Ok);
            let a0 = s0.arena;
            let a2 = self.arena;
            assert(a1.parent_of(h) == None::<Handle>);
            assert(a2.children_of(doc) == a0.children_of(doc).push(h)) by {
                assert(a2.children_of(doc) == a1.children_after_detach(doc, h).push(h));
                assert(a1.children_after_detach(doc, h) == a1.children_of(doc));
                assert(a1.children_of(doc) == a0.children_of(doc));
            }
            assert(a2.children_of(doc).last() == h);
            assert forall|x: Handle| a0.valid(x) implies a2.data_of(x) == #[trigger] a0.data_of(
                x,
            ) by {
                assert(a1.valid(x));
                assert(a1.data_of(x) == a0.data_of(x));
            }
            assert forall|x: Handle| a0.valid(x) && x != doc implies a2.children_of(x)
                == #[trigger] a0.children_of(x) by {
                assert(a1.valid(x));
                assert(a2.children_of(x) == a1.children_after_detach(x, h));
                assert(a1.children_after_detach(x, h) == a1.children_of(x));
                assert(a1.children_of(x) == a0.children_of(x));
            }
            assert forall|x: Handle| a0.valid(x) implies a2.parent_of(x) == #[trigger] a0.parent_of(
                x,
            ) by {
                assert(a1.valid(x));
                assert(x != h) by {
                    if x == h {
                        assert(a0.valid(h));
                    }
                }
                assert(a1.parent_of(x) == a0.parent_of(x));
            }
        }
    }

    /// Detaches `target` from its parent; the node and its whole subtree
    /// stay allocated and traversable from `target` itself.
    pub fn remove_from_parent(&mut self, target: &Handle) -> (r: Result<(), DomError>)
        requires
            old(self).wf(),
        ensures
            final(self).wf(),
            Arena::handles_preserved(old(self).arena, final(self).arena),
            Self::container_same(*old(self), *final(self)),
            Arena::same_shape(old(self).arena, final(self).arena),
            Arena::all_data_same(old(self).arena, final(self).arena),
            match r {
                Ok(()) => detach_effect(*old(self), *final(self), *target),
                Err(e) => {
                    &&& e == DomError::InvalidHandle
                    &&& !old(self).arena.valid(*target)
                    &&& *final(self) == *old(self)
                },
            },
    {
        self.arena.detach(*target)
    }

    /// Moves all children of `node` to the end of `new_parent`'s child
    /// list, in order; `node` ends with no children.
    pub fn reparent_children(&mut self, node: &Handle, new_parent: &Handle) -> (r: Result<
        (),
        DomError,
    >)
        requires
            old(self).wf(),
            *node != *new_parent,
            !(old(self).arena.valid(*node) && old(self).arena.children_of(*node).contains(
                *new_parent,
            )),
        ensures
            final(self).wf(),
            Arena::handles_preserved(old(self).arena, final(self).arena),
            Self::container_same(*old(self), *final(self)),
            Arena::same_shape(old(self).arena, final(self).arena),
            Arena::all_data_same(old(self).arena, final(self).arena),
            match r {
                Ok(()) => {
                    &&& old(self).arena.valid(*node) && old(self).arena.valid(*new_parent)
                    &&& final(self).arena.children_of(*node) == Seq::<Handle>::empty()
                    &&& final(self).arena.children_of(*new_parent) == old(self).arena.children_of(
                        *new_parent,
                    ) + old(self).arena.children_of(*node)
                    &&& forall|x: Handle|
                        old(self).arena.valid(x) ==> final(self).arena.parent_of(x) == (
                        if old(self).arena.children_of(*node).contains(x) {
                            Some(*new_parent)
                        } else {
                            #[trigger] old(self).arena.parent_of(x)
                        })
                    &&& forall|x: Handle|
                        old(self).arena.valid(x) && x != *node && x != *new_parent
                            ==> final(self).arena.children_of(x) == #[trigger] old(
                            self,
                        ).arena.children_of(x)
                },
                Err(e) => {
                    &&& e == DomError::InvalidHandle
                    &&& !old(self).arena.valid(*node) || !old(self).arena.valid(*new_parent)
                    &&& *final(self) == *old(self)
                },
            },
    {
        self.arena.transfer_children(*node, *new_parent)
    }
}

/// Whether one of the first `upto` attributes carries the name `n`.
fn attrs_contain_name(attrs: &Vec<Attribute>, upto: usize, n: &QualName) -> (r: bool)
    requires
        upto <= attrs@.len(),
    ensures
        r == has_attr_named(attrs@.take(upto as int), *n),
{
    let mut j: usize = 0;
    while j < upto
        invariant
            upto <= attrs@.len(),
            j <= upto,
            forall|j2: int| 0 <= j2 < j ==> !(#[trigger] attrs@[j2].name.eqv(*n)),
        decreases upto - j,
    {
        if attrs[j].name.same(n) {
            proof {
                assert(attrs@.take(upto as int)[j as int].name.eqv(*n));
            }
            return true;
        }
        j = j + 1;
    }
    proof {
        assert forall|i: int| 0 <= i < upto implies !(#[trigger] attrs@.take(
            upto as int,
        )[i].name.eqv(*n)) by {
            assert(attrs@.take(upto as int)[i] == attrs@[i]);
        }
    }
    false
}

impl GenerationalArenaDom {
    /// Appends each incoming attribute whose qualified name is not already
    /// present on the element; existing attribute values are never
    /// touched.  Fails with `NotAnElement` on a non-element target.
    pub fn add_attrs_if_missing(&mut self, target: &Handle, attrs: Vec<Attribute>) -> (r: Result<
        (),
        DomError,
    >)
        requires
            old(self).wf(),
        ensures
            final(self).wf(),
            Arena::handles_preserved(old(self).arena, final(self).arena),
            Self::container_same(*old(self), *final(self)),
            Arena::same_shape(old(self).arena, final(self).arena),
            match r {
                Ok(()) => {
                    &&& old(self).arena.valid(*target)
                    &&& old(self).arena.data_of(*target).is_element()
                    &&& final(self).arena.data_of(*target).is_element()
                    &&& final(self).arena.data_of(*target).attrs_of() == old(
                        self,
                    ).arena.data_of(*target).attrs_of() + missing_attrs(
                        old(self).arena.data_of(*target).attrs_of(),
                        attrs@,
                    )
                    &&& final(self).arena.data_of(*target).elem_name_of() == old(
                        self,
                    ).arena.data_of(*target).elem_name_of()
                    &&& final(self).arena.data_of(*target).template_of() == old(
                        self,
                    ).arena.data_of(*target).template_of()
                    &&& final(self).arena.data_of(*target).aip_of() == old(self).arena.data_of(
                        *target,
                    ).aip_of()
                    &&& final(self).arena.node_of(*target).parent == old(self).arena.node_of(
                        *target,
                    ).parent
                    &&& final(self).arena.node_of(*target).children@ == old(self).arena.node_of(
                        *target,
                    ).children@
                    &&& forall|j: int|
                        0 <= j < old(self).arena.slots@.len() && j != target.index as int
                            ==> final(self).arena.slots@[j] == #[trigger] old(
                            self,
                        ).arena.slots@[j]
                    &&& forall|x: Handle|
                        old(self).arena.valid(x) && x != *target ==> final(self).arena.data_of(x)
                            == #[trigger] old(self).arena.data_of(x)
                },
                Err(e) => {
                    &&& *final(self) == *old(self)
                    &&& if !old(self).arena.valid(*target) {
                        e == DomError::InvalidHandle
                    } else {
                        e == DomError::NotAnElement && !old(self).arena.data_of(
                            *target,
                        ).is_element()
                    }
                },
            },
    {
        let is_element = {
            let node = match self.arena.get(*target) {
                Ok(n) => n,
                Err(e) => {
                    return Err(e);
                },
            };
            match &node.data {
                NodeData::Element { .. } => true,
                _ => false,
            }
        };
        if !is_element {
            return Err(DomError::NotAnElement);
        }
        let mut node = self.arena.take_node(target.index);
        let d = node.data;
        let new_data = match d {
            NodeData::Element {
                name,
                attrs: existing,
                template_contents,
                mathml_annotation_xml_integration_point,
            } => {
                let mut existing = existing;
                let ghost orig = existing@;
                let ghost inc = attrs@;
                let orig_len = existing.len();
                let mut rest = attrs;
                let ghost mut i: int = 0;
                while rest.len() > 0
                    invariant
                        0 <= i <= inc.len(),
                        rest@ == inc.skip(i),
                        orig_len == orig.len(),
                        existing@ == orig + missing_attrs(orig, inc.take(i)),
                    decreases rest@.len(),
                {
                    let a = rest.remove(0);
                    proof {
                        assert(a == inc[i]);
                        assert(rest@ =~= inc.skip(i + 1));
                    }
                    let present = attrs_contain_name(&existing, orig_len, &a.name);
                    proof {
                        assert(existing@.take(orig_len as int) =~= orig);
                        assert(present == has_attr_named(orig, a.name));
                        assert(inc.take(i + 1).drop_last() =~= inc.take(i));
                        assert(inc.take(i + 1).last() == inc[i]);
                    }
                    if !present {
                        existing.push(a);
                    }
                    proof {
                        i = i + 1;
                    }
                }
                proof {
                    assert(inc.take(inc.len() as int) =~= inc);
                }
                NodeData::Element {
                    name,
                    attrs: existing,
                    template_contents,
                    mathml_annotation_xml_integration_point,
                }
            },
            other => other,
        };
        node.data = new_data;
        let ghost nd = node.data;
        self.arena.set_node(target.index, node);
        proof {
            let s0 = old(self).arena;
            let s1 = self.arena;
            assert(Arena::same_shape(s0, s1));
            assert forall|i: int| 0 <= i < s1.slots@.len() implies s1.handle_at(i) == s0.handle_at(
                i,
            ) by {}
            assert forall|i: int| 0 <= i < s1.slots@.len() implies #[trigger] s1.slot_ok(i) by {
                assert(s0.slot_ok(i));
                assert(s1.slots@[i].node.parent == s0.slots@[i].node.parent);
                assert(s1.slots@[i].node.children@ == s0.slots@[i].node.children@);
                assert(s1.parent_ok(i)) by {
                    match s1.slots@[i].node.parent {
                        Some(q) => {
                            assert(s0.children_of(q).contains(s0.handle_at(i)));
                            assert(s1.children_of(q) == s0.children_of(q));
                        },
                        None => {},
                    }
                }
                assert(s1.children_ok(i)) by {
                    let cs = s1.slots@[i].node.children@;
                    assert forall|j: int| 0 <= j < cs.len() implies s1.valid(#[trigger] cs[j])
                        && s1.node_of(cs[j]).parent == Some(s1.handle_at(i)) by {
                        assert(s0.children_ok(i));
                        assert(s1.node_of(cs[j]).parent == s0.node_of(cs[j]).parent);
                    }
                }
            }
        }
        Ok(())
    }
}

impl GenerationalArenaDom {
    /// The parent handle of the node `target` names, if it is attached.
    pub fn parent_node(&self, target: &Handle) -> (r: Result<Option<Handle>, DomError>)
        ensures
            match r {
                Ok(o) => self.arena.valid(*target) && o == self.arena.parent_of(*target),
                Err(e) => e == DomError::InvalidHandle && !self.arena.valid(*target),
            },
    {
        match self.arena.get(*target) {
            Ok(n) => Ok(n.parent),
            Err(e) => Err(e),
        }
    }

    /// The first child of the node `target` names, if it has children.
    pub fn first_child(&self, target: &Handle) -> (r: Result<Option<Handle>, DomError>)
        ensures
            match r {
                Ok(o) => {
                    &&& self.arena.valid(*target)
                    &&& o == (if self.arena.children_of(*target).len() > 0 {
                        Some(self.arena.children_of(*target).first())
                    } else {
                        None
                    })
                },
                Err(e) => e == DomError::InvalidHandle && !self.arena.valid(*target),
            },
    {
        let node = match self.arena.get(*target) {
            Ok(n) => n,
            Err(e) => {
                return Err(e);
            },
        };
        if node.children.len() > 0 {
            Ok(Some(node.children[0]))
        } else {
            Ok(None)
        }
    }

    /// The last child of the node `target` names, if it has children.
    pub fn last_child(&self, target: &Handle) -> (r: Result<Option<Handle>, DomError>)
        ensures
            match r {
                Ok(o) => {
                    &&& self.arena.valid(*target)
                    &&& o == (if self.arena.children_of(*target).len() > 0 {
                        Some(self.arena.children_of(*target).last())
                    } else {
                        None
                    })
                },
                Err(e) => e == DomError::InvalidHandle && !self.arena.valid(*target),
            },
    {
        let node = match self.arena.get(*target) {
            Ok(n) => n,
            Err(e) => {
                return Err(e);
            },
        };
        if node.children.len() > 0 {
            Ok(Some(node.children[node.children.len() - 1]))
        } else {
            Ok(None)
        }
    }

    /// The node standing immediately after `target` among its siblings,
    /// if any.
    pub fn next_sibling(&self, target: &Handle) -> (r: Result<Option<Handle>, DomError>)
        requires
            self.wf(),
        ensures
            match r {
                Ok(o) => {
                    &&& self.arena.valid(*target)
                    &&& match self.arena.parent_of(*target) {
                        None => o is None,
                        Some(p) => {
                            let k = Self::sibling_position(*self, *target, p);
                            if k + 1 < self.arena.children_of(p).len() {
                                o == Some(self.arena.children_of(p)[k + 1])
                            } else {
                                o is None
                            }
                        },
                    }
                },
                Err(e) => e == DomError::InvalidHandle && !self.arena.valid(*target),
            },
    {
        let node = match self.arena.get(*target) {
            Ok(n) => n,
            Err(e) => {
                return Err(e);
            },
        };
        let p = match node.parent {
            None => {
                return Ok(None);
            },
            Some(p) => p,
        };
        proof {
            assert(self.arena.slot_ok(target.index as int));
            assert(self.arena.handle_at(target.index as int) == *target);
        }
        let k = self.arena.find_child(p, *target);
        proof {
            assert(self.arena.slot_ok(p.index as int));
            let kk = Self::sibling_position(*self, *target, p);
            assert(self.arena.children_of(p)[k as int] == *target);
            assert(0 <= kk < self.arena.children_of(p).len() && self.arena.children_of(p)[kk]
                == *target);
            assert(kk == k as int);
        }
        let node2 = match self.arena.get(p) {
            Ok(n) => n,
            Err(_) => {
                return Err(DomError::InvalidHandle);
            },
        };
        let len2 = node2.children.len();
        proof {
            assert(k < len2);
        }
        if k < len2 - 1 {
            Ok(Some(node2.children[k + 1]))
        } else {
            Ok(None)
        }
    }
}

} // verus!
