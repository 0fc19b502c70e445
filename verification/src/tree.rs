//! The mathematical model of an index: a forest of named nodes, each after
//! its parent.

use vstd::prelude::*;
use crate::bytes::{DOT, SLASH};
use crate::fold::{effective, folded, lemma_fold_slash};
use crate::ids::{ids_where, lemma_ids_where_agree};

verus! {

/// The parent of an entry that has none.
pub const NO_PARENT: u32 = 0xffff_ffff;

/// One entry of the model.
#[verifier::ext_equal]
pub struct Node {
    pub parent: u32,
    pub name: Seq<u8>,
    pub is_dir: bool,
    pub alive: bool,
}

/// Every node stands after its parent, and ids stay below `NO_PARENT`.
pub open spec fn parents_first(nodes: Seq<Node>) -> bool {
    &&& nodes.len() <= NO_PARENT
    &&& forall|i: int|
        0 <= i < nodes.len() ==> (#[trigger] nodes[i]).parent == NO_PARENT || nodes[i].parent < i
}

/// `id` has a parent, which stands before it.
pub open spec fn has_parent(nodes: Seq<Node>, id: int) -> bool {
    0 <= id < nodes.len() && nodes[id].parent != NO_PARENT && nodes[id].parent < id
}

/// Selects the children of `p`.
pub open spec fn child_of(nodes: Seq<Node>, p: u32) -> spec_fn(int) -> bool {
    |i: int| nodes[i].parent == p
}

/// The children of `p`, in the order in which they were added.
pub open spec fn child_ids(nodes: Seq<Node>, p: u32) -> Seq<u32> {
    ids_where(child_of(nodes, p), nodes.len())
}

/// What a root contributes to a path: its name, which is a whole path, or
/// "/" if that is empty.
pub open spec fn root_path(name: Seq<u8>) -> Seq<u8> {
    if name.len() == 0 {
        seq![SLASH]
    } else {
        name
    }
}

/// The separator between the path `p` and a name below it.
pub open spec fn separator(p: Seq<u8>) -> Seq<u8> {
    if p.len() > 0 && p.last() == SLASH {
        seq![]
    } else {
        seq![SLASH]
    }
}

/// The full path of `id`.
pub open spec fn path(nodes: Seq<Node>, id: int) -> Seq<u8>
    decreases id,
{
    if has_parent(nodes, id) {
        let above = path(nodes, nodes[id].parent as int);
        above + separator(above) + nodes[id].name
    } else {
        root_path(nodes[id].name)
    }
}

/// What `id` adds to its parent's path, as it is compared.
pub open spec fn piece(nodes: Seq<Node>, id: int, match_case: bool) -> Seq<u8> {
    if has_parent(nodes, id) {
        separator(path(nodes, nodes[id].parent as int)) + effective(nodes[id].name, match_case)
    } else {
        effective(root_path(nodes[id].name), match_case)
    }
}

/// `a` is `d` or one of the folders above it.
pub open spec fn on_chain(nodes: Seq<Node>, a: int, d: int) -> bool
    decreases d,
{
    a == d || (has_parent(nodes, d) && on_chain(nodes, a, nodes[d].parent as int))
}

/// The name starts with a dot.
pub open spec fn dotted(name: Seq<u8>) -> bool {
    name.len() > 0 && name[0] == DOT
}

/// `id`, or a folder above it and below `root`, has a dotted name.
pub open spec fn hidden(nodes: Seq<Node>, root: u32, id: int) -> bool
    decreases id,
{
    id != root && (dotted(nodes[id].name) || (has_parent(nodes, id) && hidden(
        nodes,
        root,
        nodes[id].parent as int,
    )))
}

/// The two forests differ in nothing but what is alive and what is a folder.
pub open spec fn same_shape(a: Seq<Node>, b: Seq<Node>) -> bool {
    &&& a.len() == b.len()
    &&& forall|i: int| 0 <= i < a.len() ==> (#[trigger] a[i]).parent == b[i].parent
    &&& forall|i: int| 0 <= i < a.len() ==> (#[trigger] a[i]).name == b[i].name
}

pub proof fn lemma_path_nonempty(nodes: Seq<Node>, id: int)
    requires
        0 <= id < nodes.len(),
    ensures
        path(nodes, id).len() > 0,
    decreases id,
{
    if has_parent(nodes, id) {
        lemma_path_nonempty(nodes, nodes[id].parent as int);
    }
}

/// The compared form of a path grows by one piece per level.
pub proof fn lemma_effective_path(nodes: Seq<Node>, id: int, match_case: bool)
    requires
        0 <= id < nodes.len(),
    ensures
        effective(path(nodes, id), match_case) == (if has_parent(nodes, id) {
            effective(path(nodes, nodes[id].parent as int), match_case) + piece(
                nodes,
                id,
                match_case,
            )
        } else {
            piece(nodes, id, match_case)
        }),
{
    if has_parent(nodes, id) {
        let above = path(nodes, nodes[id].parent as int);
        let name = nodes[id].name;
        lemma_path_nonempty(nodes, nodes[id].parent as int);
        if above.last() == SLASH {
            let stem = above.drop_last();
            assert(above =~= stem + seq![SLASH]);
            assert(above + separator(above) + name =~= stem + seq![SLASH] + name);
            lemma_fold_slash(stem, name);
            assert(folded(stem) + seq![SLASH] + folded(name) =~= folded(above) + (separator(above)
                + folded(name)));
            assert(above + separator(above) + name =~= above + (separator(above) + name));
        } else {
            lemma_fold_slash(above, name);
            assert(folded(above) + seq![SLASH] + folded(name) =~= folded(above) + (separator(above)
                + folded(name)));
            assert(above + separator(above) + name =~= above + (separator(above) + name));
        }
    }
}

/// Whether a path ends in a separator is seen from its last piece.
pub proof fn lemma_path_end(nodes: Seq<Node>, id: int)
    requires
        0 <= id < nodes.len(),
    ensures
        (path(nodes, id).last() == SLASH) == (if nodes[id].name.len() == 0 {
            true
        } else {
            nodes[id].name.last() == SLASH
        }),
{
    if has_parent(nodes, id) {
        let above = path(nodes, nodes[id].parent as int);
        lemma_path_nonempty(nodes, nodes[id].parent as int);
        if nodes[id].name.len() == 0 {
            assert(above + separator(above) + nodes[id].name =~= above + separator(above));
        }
    }
}

/// Nodes of the same shape have the same paths and children.
pub proof fn lemma_same_shape_path(a: Seq<Node>, b: Seq<Node>, id: int)
    requires
        same_shape(a, b),
        0 <= id < a.len(),
    ensures
        path(a, id) == path(b, id),
    decreases id,
{
    assert(a[id].parent == b[id].parent && a[id].name == b[id].name);
    if has_parent(a, id) {
        lemma_same_shape_path(a, b, a[id].parent as int);
    }
}

pub proof fn lemma_same_shape_children(a: Seq<Node>, b: Seq<Node>, p: u32)
    requires
        same_shape(a, b),
    ensures
        child_ids(a, p) == child_ids(b, p),
{
    assert forall|i: int| 0 <= i < a.len() implies child_of(a, p)(i) == #[trigger] child_of(b, p)(
        i,
    ) by {
        assert(a[i].parent == b[i].parent);
    }
    lemma_ids_where_agree(child_of(a, p), child_of(b, p), a.len());
}

/// A new node at the end changes no path before it.
pub proof fn lemma_push_path(nodes: Seq<Node>, n: Node, id: int)
    requires
        0 <= id < nodes.len(),
    ensures
        path(nodes.push(n), id) == path(nodes, id),
    decreases id,
{
    let more = nodes.push(n);
    assert(more[id] == nodes[id]);
    if has_parent(nodes, id) {
        lemma_push_path(nodes, n, nodes[id].parent as int);
    }
}

/// A new node at the end is the last child of its parent.
pub proof fn lemma_push_children(nodes: Seq<Node>, n: Node, p: u32)
    requires
        nodes.len() < NO_PARENT,
    ensures
        child_ids(nodes.push(n), p) == (if n.parent == p {
            child_ids(nodes, p).push(nodes.len() as u32)
        } else {
            child_ids(nodes, p)
        }),
{
    let more = nodes.push(n);
    assert forall|i: int| 0 <= i < nodes.len() implies child_of(more, p)(i) == #[trigger] child_of(
        nodes,
        p,
    )(i) by {
        assert(more[i] == nodes[i]);
    }
    lemma_ids_where_agree(child_of(more, p), child_of(nodes, p), nodes.len());
    assert(more[nodes.len() as int] == n);
}

/// Chains are transitive.
pub proof fn lemma_chain_trans(nodes: Seq<Node>, a: int, b: int, d: int)
    requires
        on_chain(nodes, a, b),
        on_chain(nodes, b, d),
    ensures
        on_chain(nodes, a, d),
    decreases d,
{
    if b != d {
        lemma_chain_trans(nodes, a, b, nodes[d].parent as int);
    }
}

/// Whoever is on a chain does not stand after its end.
pub proof fn lemma_chain_order(nodes: Seq<Node>, a: int, d: int)
    requires
        on_chain(nodes, a, d),
    ensures
        a <= d,
    decreases d,
{
    if a != d {
        lemma_chain_order(nodes, a, nodes[d].parent as int);
    }
}

/// Of two entries on one chain, the earlier is on the chain of the later.
pub proof fn lemma_chain_total(nodes: Seq<Node>, a: int, b: int, d: int)
    requires
        on_chain(nodes, a, d),
        on_chain(nodes, b, d),
        a <= b,
    ensures
        on_chain(nodes, a, b),
    decreases d,
{
    if b != d {
        lemma_chain_order(nodes, b, nodes[d].parent as int);
        if a == d {
            assert(false);
        }
        lemma_chain_total(nodes, a, b, nodes[d].parent as int);
    }
}

} // verus!
