//! Reachability over the arena's child links, and the structural laws that
//! rest on it: a node without a parent cannot be reached from the root, a
//! listed child is reachable from its parent, and every way of reaching a
//! node passes through its parent.

use vstd::prelude::*;

use crate::arena::lemma_remove_first_props;
use crate::arena::Arena;
use crate::dom::detach_effect;
use crate::dom::text_merged;
use crate::dom::GenerationalArenaDom;
use crate::node::has_attr_named;
use crate::node::missing_attrs;
use crate::node::Attribute;
use crate::node::ElementFlags;
use crate::node::Handle;
use crate::node::QualName;

verus! {

/// One step down the tree: `c` is listed among the children of `p`.
pub open spec fn is_child_step(a: Arena, p: Handle, c: Handle) -> bool {
    a.valid(p) && a.children_of(p).contains(c)
}

/// A walk that only ever steps from a node to one of its children.
pub open spec fn is_path(a: Arena, path: Seq<Handle>) -> bool {
    forall|i: int| 0 <= i < path.len() - 1 ==> is_child_step(a, path[i], #[trigger] path[i + 1])
}

/// `to` can be reached from `from` by child traversal alone.
pub open spec fn reachable(a: Arena, from: Handle, to: Handle) -> bool {
    exists|path: Seq<Handle>|
        #[trigger] is_path(a, path) && path.len() >= 1 && path.first() == from && path.last() == to
}

/// Every node reaches itself.
pub proof fn lemma_self_reachable(a: Arena, h: Handle)
    ensures
        reachable(a, h, h),
{
    let path = seq![h];
    assert(is_path(a, path));
}

/// A listed child is reachable from its parent.
pub proof fn lemma_child_reachable(a: Arena, p: Handle, c: Handle)
    requires
        is_child_step(a, p, c),
    ensures
        reachable(a, p, c),
{
    let path = seq![p, c];
    assert(is_path(a, path)) by {
        assert forall|i: int| 0 <= i < path.len() - 1 implies is_child_step(
            a,
            path[i],
            #[trigger] path[i + 1],
        ) by {
            assert(i == 0);
        }
    }
}

/// In a well-formed arena a node with no parent cannot be reached from any
/// other node by child traversal: nothing lists it.  This is what keeps a
/// detached subtree, and a template's content subtree, out of the document.
pub proof fn lemma_no_parent_unreachable(a: Arena, root: Handle, t: Handle)
    requires
        a.wf(),
        a.parent_of(t) == None::<Handle>,
        t != root,
    ensures
        !reachable(a, root, t),
{
    if reachable(a, root, t) {
        let path = choose|path: Seq<Handle>|
            #[trigger] is_path(a, path) && path.len() >= 1 && path.first() == root && path.last()
                == t;
        if path.len() == 1 {
            assert(path.first() == path.last());
        } else {
            let l = path.len() as int;
            let x = path[l - 2];
            assert(is_child_step(a, path[l - 2], path[l - 2 + 1]));
            let cs = a.children_of(x);
            let j = choose|j: int| 0 <= j < cs.len() && cs[j] == t;
            a.lemma_no_parent_not_listed(x, t, j);
        }
    }
}

/// In a well-formed arena, reaching a node from anywhere else means
/// stepping through its parent last: the parent is reachable too.
pub proof fn lemma_reach_goes_through_parent(a: Arena, from: Handle, c: Handle, n: Handle)
    requires
        a.wf(),
        reachable(a, from, c),
        from != c,
        a.parent_of(c) == Some(n),
    ensures
        reachable(a, from, n),
{
    let path = choose|path: Seq<Handle>|
        #[trigger] is_path(a, path) && path.len() >= 1 && path.first() == from && path.last() == c;
    let l = path.len() as int;
    assert(l >= 2) by {
        if l == 1 {
            assert(path.first() == path.last());
        }
    }
    let x = path[l - 2];
    assert(is_child_step(a, path[l - 2], path[l - 2 + 1]));
    let cs = a.children_of(x);
    let j = choose|j: int| 0 <= j < cs.len() && cs[j] == c;
    a.lemma_no_parent_not_listed(x, c, j);
    assert(x == n);
    let prefix = path.drop_last();
    assert(is_path(a, prefix)) by {
        assert(forall|i: int|
            0 <= i < prefix.len() - 1 ==> is_child_step(a, prefix[i], #[trigger] prefix[i + 1]));
    }
    assert(prefix.len() >= 1 && prefix.first() == from && prefix.last() == n);
}

/// Appending text twice in a row under the same parent, starting from a
/// parent whose last child is not a text node, leaves exactly one new
/// child: a text node holding the concatenation of the two pieces.
pub proof fn lemma_text_coalescing(
    s0: GenerationalArenaDom,
    s1: GenerationalArenaDom,
    s2: GenerationalArenaDom,
    parent: Handle,
    ta: Seq<char>,
    tb: Seq<char>,
)
    requires
        s0.wf(),
        s0.arena.children_of(parent).len() == 0 || !s0.arena.data_of(
            s0.arena.children_of(parent).last(),
        ).is_text(),
        GenerationalArenaDom::append_text_effect(s0, s1, parent, ta),
        GenerationalArenaDom::append_text_effect(s1, s2, parent, tb),
    ensures
        s2.arena.children_of(parent).len() == s0.arena.children_of(parent).len() + 1,
        s2.arena.data_of(s2.arena.children_of(parent).last()).is_text(),
        s2.arena.data_of(s2.arena.children_of(parent).last()).text() == ta + tb,
{
    let cs0 = s0.arena.children_of(parent);
    let h = choose|h: Handle| #[trigger] crate::dom::fresh_text_appended(
        s0.arena,
        s1.arena,
        parent,
        h,
        ta,
    );
    assert(crate::dom::fresh_text_appended(s0.arena, s1.arena, parent, h, ta));
    let cs1 = s1.arena.children_of(parent);
    assert(cs1 == cs0.push(h));
    assert(cs1.last() == h);
    assert(s1.arena.data_of(h).is_text());
    assert(text_merged(s1.arena, s2.arena, h, tb));
    assert(parent.index != h.index) by {
        assert(s0.arena.valid(parent));
    }
    assert(s2.arena.node_of(parent).children@ == s1.arena.node_of(parent).children@) by {
        assert(s2.arena.slots@[parent.index as int] == s1.arena.slots@[parent.index as int]);
    }
    assert(s2.arena.children_of(parent) == cs1);
    assert(s2.arena.data_of(h).text() == ta + tb);
}

/// When the node standing immediately before the insertion point is a
/// text node, inserting text before a sibling merges into that node's
/// buffer: no node is created and the child list is untouched.
pub proof fn lemma_insert_before_coalesces(
    s0: GenerationalArenaDom,
    s1: GenerationalArenaDom,
    sib: Handle,
    t: Seq<char>,
    p: Handle,
    k: int,
)
    requires
        s0.wf(),
        GenerationalArenaDom::append_before_text_effect(s0, s1, sib, t),
        s0.arena.parent_of(sib) == Some(p),
        0 <= k < s0.arena.children_of(p).len(),
        s0.arena.children_of(p)[k] == sib,
        k > 0,
        s0.arena.data_of(s0.arena.children_of(p)[k - 1]).is_text(),
    ensures
        Arena::same_shape(s0.arena, s1.arena),
        s1.arena.children_of(p) == s0.arena.children_of(p),
        s1.arena.data_of(s0.arena.children_of(p)[k - 1]).is_text(),
        s1.arena.data_of(s0.arena.children_of(p)[k - 1]).text() == s0.arena.data_of(
            s0.arena.children_of(p)[k - 1],
        ).text() + t,
{
    let cs = s0.arena.children_of(p);
    assert(s0.arena.slot_ok(sib.index as int));
    assert(s0.arena.handle_at(sib.index as int) == sib);
    assert(s0.arena.valid(p));
    assert(s0.arena.slot_ok(p.index as int));
    let kk = GenerationalArenaDom::sibling_position(s0, sib, p);
    assert(0 <= kk < cs.len() && cs[kk] == sib);
    assert(kk == k);
    let prev = cs[k - 1];
    assert(text_merged(s0.arena, s1.arena, prev, t));
    assert(s1.arena.node_of(p).children@ == s0.arena.node_of(p).children@) by {
        if p.index != prev.index {
            assert(s1.arena.slots@[p.index as int] == s0.arena.slots@[p.index as int]);
        }
    }
}

/// Merging a single attribute into a list that already carries its name
/// adds nothing; into a list that lacks the name it adds exactly that
/// attribute, unchanged, at the end.
pub proof fn lemma_attr_merge_single(existing: Seq<Attribute>, a: Attribute)
    ensures
        has_attr_named(existing, a.name) ==> missing_attrs(existing, seq![a])
            == Seq::<Attribute>::empty(),
        !has_attr_named(existing, a.name) ==> missing_attrs(existing, seq![a]) == seq![a],
{
    let inc = seq![a];
    assert(inc.drop_last() =~= Seq::<Attribute>::empty());
    assert(inc.last() == a);
    assert(missing_attrs(existing, Seq::<Attribute>::empty()) == Seq::<Attribute>::empty());
    assert(missing_attrs(existing, inc.drop_last()) == Seq::<Attribute>::empty());
    if !has_attr_named(existing, a.name) {
        assert(missing_attrs(existing, inc) =~= seq![a]);
    }
}

/// An attribute merge never touches the attributes already present: the
/// old list is a prefix of the new one, position by position.
pub proof fn lemma_attr_merge_preserves_existing(
    existing: Seq<Attribute>,
    incoming: Seq<Attribute>,
    i: int,
)
    requires
        0 <= i < existing.len(),
    ensures
        (existing + missing_attrs(existing, incoming)).len() >= existing.len(),
        (existing + missing_attrs(existing, incoming))[i] == existing[i],
{
}

/// The content subtree of an element created with the template flag is
/// isolated: its root has no parent and cannot be reached from the
/// document root by child traversal.
pub proof fn lemma_template_contents_isolated(
    pre: GenerationalArenaDom,
    post: GenerationalArenaDom,
    name: QualName,
    attrs: Seq<Attribute>,
    flags: ElementFlags,
    h: Handle,
    t: Handle,
)
    requires
        pre.wf(),
        post.wf(),
        flags.template,
        GenerationalArenaDom::create_element_effect(pre, post, name, attrs, flags, h),
        post.arena.data_of(h).template_of() == Some(t),
    ensures
        post.arena.parent_of(t) == None::<Handle>,
        t != post.document,
        !reachable(post.arena, post.document, t),
{
    assert(t.index == pre.arena.slots@.len());
    assert(pre.arena.valid(pre.document));
    assert(post.document == pre.document);
    assert(t != post.document) by {
        assert(pre.document.index < pre.arena.slots@.len());
    }
    lemma_no_parent_unreachable(post.arena, post.document, t);
}

/// A node detached from the tree takes its whole subtree with it: the
/// node itself cannot be reached from the root any more, while each of
/// its children is still reachable from it, and from nowhere else.
pub proof fn lemma_detached_subtree(a: Arena, root: Handle, n: Handle, c: Handle)
    requires
        a.wf(),
        a.valid(n),
        a.parent_of(n) == None::<Handle>,
        n != root,
        a.children_of(n).contains(c),
    ensures
        !reachable(a, root, n),
        reachable(a, n, c),
        reachable(a, root, c) ==> c == root,
{
    lemma_no_parent_unreachable(a, root, n);
    lemma_child_reachable(a, n, c);
    let j = choose|j: int| 0 <= j < a.children_of(n).len() && a.children_of(n)[j] == c;
    a.lemma_no_parent_not_listed(n, c, j);
    if reachable(a, root, c) && c != root {
        lemma_reach_goes_through_parent(a, root, c, n);
    }
}

/// Removing a node (other than the root itself) from its parent takes its
/// whole subtree out of the document: the node cannot be reached from the
/// root any more, while each of its former children is still reachable
/// from it, and from nowhere else.
pub proof fn lemma_detach_isolates_subtree(
    pre: GenerationalArenaDom,
    post: GenerationalArenaDom,
    n: Handle,
    c: Handle,
)
    requires
        pre.wf(),
        post.wf(),
        detach_effect(pre, post, n),
        n != pre.document,
        pre.arena.children_of(n).contains(c),
    ensures
        !reachable(post.arena, post.document, n),
        reachable(post.arena, n, c),
        reachable(post.arena, post.document, c) ==> c == post.document,
{
    let a = post.arena;
    assert(a.valid(n));
    assert(post.document == pre.document);
    lemma_no_parent_unreachable(a, post.document, n);
    if c == n {
        lemma_self_reachable(a, n);
    } else {
        assert(a.children_of(n) == pre.arena.children_after_detach(n, n));
        assert(a.children_of(n).contains(c)) by {
            if pre.arena.parent_of(n) == Some(n) {
                assert(pre.arena.slot_ok(n.index as int));
                assert(pre.arena.handle_at(n.index as int) == n);
                assert(pre.arena.children_of(n).contains(n));
                lemma_remove_first_props(pre.arena.children_of(n), n);
            } else {
                assert(a.children_of(n) == pre.arena.children_of(n));
            }
        }
        lemma_detached_subtree(a, post.document, n, c);
    }
}

} // verus!
