//! From an entry to its path and back.

use vstd::prelude::*;
use vstd::utf8::{decode_utf8, encode_utf8, valid_utf8};
use crate::bytes::SLASH;
use crate::ids::{ids_where, lemma_ids_where};
use crate::index::{lemma_first_where, named, named_alive, IndexView};
use crate::maintain::{components, components_from, heads};
use crate::tree::{has_parent, parents_first, path, Node, NO_PARENT};
use crate::updates::lemma_child_exists;

verus! {

/// A name that is one component of a path.
pub open spec fn one_component(name: Seq<u8>) -> bool {
    name.len() > 0 && !name.contains(SLASH)
}

/// What follows a name without separators is in the same component.
proof fn lemma_component(name: Seq<u8>, cur: Seq<u8>)
    requires
        !name.contains(SLASH),
        name.len() + cur.len() > 0,
    ensures
        components_from(name, cur) == seq![cur + name],
    decreases name.len(),
{
    if name.len() == 0 {
        assert(cur + name =~= cur);
    } else {
        let rest = name.skip(1);
        assert(name[0] != SLASH) by {
            assert(name.contains(name[0]));
        }
        assert(!rest.contains(SLASH)) by {
            if rest.contains(SLASH) {
                let i = choose|i: int| 0 <= i < rest.len() && rest[i] == SLASH;
                assert(name[i + 1] == SLASH);
            }
        }
        lemma_component(rest, cur.push(name[0]));
        assert(cur.push(name[0]) + rest =~= cur + name);
    }
}

/// A separator and a name add one component.
proof fn lemma_component_added(s: Seq<u8>, name: Seq<u8>, cur: Seq<u8>)
    requires
        one_component(name),
    ensures
        components_from(s + seq![SLASH] + name, cur) == components_from(s, cur).push(name),
    decreases s.len(),
{
    let all = s + seq![SLASH] + name;
    if s.len() == 0 {
        assert(all.skip(1) =~= name);
        lemma_component(name, seq![]);
        assert(Seq::<u8>::empty() + name =~= name);
        assert(components_from(all, cur) =~= components_from(s, cur).push(name));
    } else {
        assert(all.skip(1) =~= s.skip(1) + seq![SLASH] + name);
        assert(all[0] == s[0]);
        if s[0] == SLASH {
            lemma_component_added(s.skip(1), name, seq![]);
        } else {
            lemma_component_added(s.skip(1), name, cur.push(s[0]));
        }
        assert(components_from(all, cur) =~= components_from(s, cur).push(name));
    }
}

/// A separator at the end adds none.
proof fn lemma_component_closed(s: Seq<u8>, cur: Seq<u8>)
    ensures
        components_from(s.push(SLASH), cur) == components_from(s, cur),
    decreases s.len(),
{
    let all = s.push(SLASH);
    if s.len() == 0 {
        assert(all.skip(1) =~= Seq::<u8>::empty());
        assert(components_from(all.skip(1), seq![]) =~= Seq::<Seq<u8>>::empty());
        assert(components_from(all, cur) =~= components_from(s, cur));
    } else {
        assert(all.skip(1) =~= s.skip(1).push(SLASH));
        assert(all[0] == s[0]);
        if s[0] == SLASH {
            lemma_component_closed(s.skip(1), seq![]);
        } else {
            lemma_component_closed(s.skip(1), cur.push(s[0]));
        }
    }
}

/// A name adds one component where the path before it is empty or ends in a
/// separator.
proof fn lemma_component_follows(s: Seq<u8>, name: Seq<u8>)
    requires
        one_component(name),
        s.len() == 0 || s.last() == SLASH,
    ensures
        components(s + name) == components(s).push(name),
{
    if s.len() == 0 {
        assert(s + name =~= name);
        lemma_component(name, seq![]);
        assert(Seq::<u8>::empty() + name =~= name);
        assert(components(s).push(name) =~= seq![name]);
    } else {
        let stem = s.drop_last();
        assert(s =~= stem.push(SLASH));
        assert(s + name =~= stem + seq![SLASH] + name);
        lemma_component_added(stem, name, seq![]);
        lemma_component_closed(stem, seq![]);
    }
}

/// The names from `root`, which is left out, down to `id`.
pub open spec fn names_down(nodes: Seq<Node>, root: u32, id: int) -> Seq<Seq<u8>>
    decreases id,
{
    if id == root || !has_parent(nodes, id) {
        seq![]
    } else {
        names_down(nodes, root, nodes[id].parent as int).push(nodes[id].name)
    }
}

impl IndexView {
    /// Siblings differ in name, as `add` keeps them.
    pub open spec fn siblings_differ(self) -> bool {
        forall|i: int, j: int|
            0 <= i < j < self.nodes.len() && (#[trigger] self.nodes[i]).parent == (
            #[trigger] self.nodes[j]).parent && self.nodes[i].parent != NO_PARENT
                ==> self.nodes[i].name != self.nodes[j].name
    }

    /// `id` hangs below the root, is alive and so is all above it, and each
    /// name below the root is one component of a path.
    pub open spec fn reachable(self, id: int) -> bool
        decreases id,
    {
        &&& 0 <= id < self.nodes.len()
        &&& self.nodes[id].alive
        &&& if id == self.root {
            self.nodes[id].parent == NO_PARENT
        } else {
            has_parent(self.nodes, id) && one_component(self.nodes[id].name) && self.reachable(
                self.nodes[id].parent as int,
            )
        }
    }
}

/// One more name leads one step further down.
proof fn lemma_descend(v: IndexView, from: u32, names: Seq<Seq<u8>>, name: Seq<u8>)
    ensures
        v.descend(from, names.push(name)) == (match v.descend(from, names) {
            Some(x) => v.child(x, name),
            None => None,
        }),
    decreases names.len(),
{
    let all = names.push(name);
    if names.len() == 0 {
        assert(all[0] == name);
        assert(all.skip(1) =~= Seq::<Seq<u8>>::empty());
        if let Some(k) = v.child(from, name) {
            assert(v.descend(k, all.skip(1)) == Some(k));
        }
    } else {
        assert(all[0] == names[0]);
        assert(all.skip(1) =~= names.skip(1).push(name));
        if let Some(k) = v.child(from, names[0]) {
            lemma_descend(v, k, names.skip(1), name);
        }
    }
}

/// The names from the root down to an entry lead to it.
proof fn lemma_names_lead(v: IndexView, id: int)
    requires
        parents_first(v.nodes),
        v.siblings_differ(),
        v.reachable(id),
    ensures
        v.descend(v.root, names_down(v.nodes, v.root, id)) == Some(id as u32),
    decreases id,
{
    if id != v.root {
        let up = v.nodes[id].parent;
        let name = v.nodes[id].name;
        lemma_names_lead(v, up as int);
        lemma_descend(v, v.root, names_down(v.nodes, v.root, up as int), name);
        let keep = named_alive(v.nodes, up, name);
        assert(keep(id));
        assert forall|i: int| 0 <= i < id implies !#[trigger] keep(i) by {
            if keep(i) {
                assert(v.nodes[i].parent == v.nodes[id].parent);
            }
        }
        lemma_first_where(keep, v.nodes.len(), id);
    }
}

/// How much of a path the root's own path takes up before the components are
/// read.
spec fn stripped(top: Seq<u8>) -> int {
    if top == seq![SLASH] {
        0
    } else {
        top.len() as int
    }
}

/// The components of an entry's path behind the root's are the names from the
/// root down to it.
proof fn lemma_path_components(v: IndexView, id: int)
    requires
        v.reachable(id),
    ensures
        ({
            let top = v.nodes[v.root as int].name;
            let p = path(v.nodes, id);
            &&& p.len() > 0
            &&& p.len() >= stripped(top)
            &&& top != seq![SLASH] ==> heads(p, top)
            &&& components(p.skip(stripped(top))) == names_down(v.nodes, v.root, id)
        }),
    decreases id,
{
    let top = v.nodes[v.root as int].name;
    let p = path(v.nodes, id);
    let n = stripped(top);
    if id == v.root {
        if top == seq![SLASH] || top.len() == 0 {
            assert(p =~= seq![SLASH]);
            assert(p.skip(n) =~= Seq::<u8>::empty().push(SLASH));
            lemma_component_closed(seq![], seq![]);
        } else {
            assert(p == top);
            assert(p.skip(n) =~= Seq::<u8>::empty());
        }
        assert(components(Seq::<u8>::empty()) =~= Seq::<Seq<u8>>::empty());
        if top.len() == 0 {
            assert(p.take(0) =~= top);
        } else {
            assert(p.take(top.len() as int) =~= top);
        }
    } else {
        let up = v.nodes[id].parent as int;
        let name = v.nodes[id].name;
        lemma_path_components(v, up);
        let above = path(v.nodes, up);
        let rest = above.skip(n);
        if above.last() == SLASH {
            assert(p =~= above + name);
            assert(p.skip(n) =~= rest + name);
            if rest.len() > 0 {
                assert(rest.last() == above.last());
            }
            lemma_component_follows(rest, name);
        } else {
            assert(p =~= above + seq![SLASH] + name);
            assert(p.skip(n) =~= rest + seq![SLASH] + name);
            lemma_component_added(rest, name, seq![]);
        }
        if top != seq![SLASH] {
            assert(p.take(top.len() as int) =~= above.take(top.len() as int));
            if above.len() == top.len() {
                assert(above =~= top);
            } else {
                assert(p[top.len() as int] == above[top.len() as int]);
            }
        }
    }
}

/// Resolving an entry's own path gives that entry back, in a tree with one
/// root in which siblings differ: the entry and all above it are alive, and
/// each name below the root is one component. The same holds of the path as
/// text, where it is text.
pub proof fn paths_lead_back(v: IndexView, id: u32)
    requires
        parents_first(v.nodes),
        v.siblings_differ(),
        v.root < v.nodes.len(),
        v.reachable(id as int),
    ensures
        v.resolved(path(v.nodes, id as int)) == Some(id),
        valid_utf8(path(v.nodes, id as int)) ==> v.resolved(
            encode_utf8(decode_utf8(path(v.nodes, id as int))),
        ) == Some(id),
{
    let top = v.nodes[v.root as int].name;
    let p = path(v.nodes, id as int);
    lemma_path_components(v, id as int);
    lemma_names_lead(v, id as int);
    assert(p.skip(0) =~= p);
    if valid_utf8(p) {
        vstd::utf8::decode_utf8_encode_utf8(p);
    }
}

/// `add` keeps siblings apart: what is there already is found again.
pub proof fn adding_keeps_siblings_apart(
    v: IndexView,
    parent: u32,
    name: Seq<u8>,
    is_dir: bool,
    ino: u64,
)
    requires
        parents_first(v.nodes),
        v.siblings_differ(),
    ensures
        v.added(parent, name, is_dir, ino).0.siblings_differ(),
{
    let w = v.added(parent, name, is_dir, ino).0;
    match v.any_child(parent, name) {
        Some(k) => {
            lemma_child_exists(v, parent, name, k);
            assert forall|i: int, j: int|
                0 <= i < j < w.nodes.len() && (#[trigger] w.nodes[i]).parent == (
                #[trigger] w.nodes[j]).parent && w.nodes[i].parent
                    != NO_PARENT implies w.nodes[i].name != w.nodes[j].name by {
                assert(v.nodes[i].parent == v.nodes[j].parent);
            }
        },
        None => {
            assert forall|i: int, j: int|
                0 <= i < j < w.nodes.len() && (#[trigger] w.nodes[i]).parent == (
                #[trigger] w.nodes[j]).parent && w.nodes[i].parent
                    != NO_PARENT implies w.nodes[i].name != w.nodes[j].name by {
                if j < v.nodes.len() {
                    assert(v.nodes[i].parent == v.nodes[j].parent);
                } else {
                    let keep = named(v.nodes, parent, name);
                    if keep(i) {
                        lemma_ids_where(keep, v.nodes.len());
                        assert(ids_where(keep, v.nodes.len()).contains(i as u32));
                    }
                }
            }
        },
    }
}

/// `remove` keeps siblings apart: names and parents stay.
pub proof fn removing_keeps_siblings_apart(v: IndexView, id: u32)
    requires
        v.siblings_differ(),
    ensures
        v.removed(id).siblings_differ(),
{
    let w = v.removed(id);
    assert forall|i: int, j: int|
        0 <= i < j < w.nodes.len() && (#[trigger] w.nodes[i]).parent == (
        #[trigger] w.nodes[j]).parent && w.nodes[i].parent != NO_PARENT implies w.nodes[i].name
        != w.nodes[j].name by {
        assert(v.nodes[i].parent == v.nodes[j].parent);
    }
}

/// The path of the root leads to the root, and one name more leads to the living
/// entry of that name in the folder that the path leads to. Separators at the
/// end lead no further.
pub proof fn paths_are_followed_name_by_name(v: IndexView, p: Seq<u8>, name: Seq<u8>)
    requires
        v.root < v.nodes.len(),
        v.root != 0xffff_ffff,
        name.len() > 0,
        !name.contains(0x2f),
    ensures
        v.resolved(v.nodes[v.root as int].name) == Some(v.root) || v.nodes[v.root as int].name
            == seq![0x2fu8],
        v.nodes[v.root as int].name == seq![0x2fu8] ==> v.resolved(seq![0x2fu8]) == Some(v.root),
        v.resolved(p) matches Some(d) ==> v.resolved(p + seq![0x2fu8] + name) == v.child(d, name),
        v.resolved(p) is Some ==> v.resolved(p + seq![0x2fu8]) == v.resolved(p),
{
    let top = v.nodes[v.root as int].name;
    let slash = seq![0x2fu8];
    let none = Seq::<u8>::empty();
    assert(components(none) =~= Seq::<Seq<u8>>::empty());
    assert(top.skip(top.len() as int) =~= none);
    assert(top.take(top.len() as int) =~= top);
    lemma_component_closed(none, none);
    assert(none.push(SLASH) =~= slash);
    if v.resolved(p) is Some {
        let all = p + slash + name;
        let shut = p + slash;
        assert(shut =~= p.push(SLASH));
        if top == slash {
            lemma_component_added(p, name, none);
            lemma_component_closed(p, none);
            lemma_descend(v, v.root, components(p), name);
        } else {
            let rest = p.skip(top.len() as int);
            assert(heads(p, top));
            assert(all.take(top.len() as int) =~= p.take(top.len() as int));
            assert(shut.take(top.len() as int) =~= p.take(top.len() as int));
            assert(all.skip(top.len() as int) =~= rest + slash + name);
            assert(shut.skip(top.len() as int) =~= rest.push(SLASH));
            lemma_component_added(rest, name, none);
            lemma_component_closed(rest, none);
            lemma_descend(v, v.root, components(rest), name);
        }
    }
}

/// What does not lie in the root's folder is not looked for, and a longer name
/// that only starts like the root lies beside it.
pub proof fn other_paths_lead_nowhere(v: IndexView, p: Seq<u8>, c: u8, rest: Seq<u8>)
    requires
        v.root < v.nodes.len(),
        v.nodes[v.root as int].name != seq![0x2fu8],
        v.nodes[v.root as int].name.len() > 0,
        v.nodes[v.root as int].name.last() != 0x2f,
        p.len() < v.nodes[v.root as int].name.len() || p.take(
            v.nodes[v.root as int].name.len() as int,
        ) != v.nodes[v.root as int].name,
        c != 0x2f,
    ensures
        v.resolved(p) is None,
        v.resolved(v.nodes[v.root as int].name + (seq![c] + rest)) is None,
{
    let top = v.nodes[v.root as int].name;
    let q = top + (seq![c] + rest);
    assert(q[top.len() as int] == c);
}

/// An index without a root holds no path.
pub proof fn rootless_indexes_hold_no_path(v: IndexView, p: Seq<u8>)
    requires
        v.root == 0xffff_ffff,
    ensures
        v.resolved(p) is None,
{
}

} // verus!
