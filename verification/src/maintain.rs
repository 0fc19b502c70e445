//! Keeping an index in step with the filesystem: removal, rebuilding, and the
//! lookups that events need.

use vstd::prelude::*;
use vstd::std_specs::iter::IteratorSpec;
use vstd::utf8::{decode_utf8, valid_utf8};
use std::collections::HashMap;
use crate::bytes::{copy_range, has_prefix, starts_with, views, SLASH};
use crate::ids::{
    ascending, ids_where, lemma_ascending_len, lemma_ids_where, lemma_ids_where_contains,
    lemma_ids_where_unique, sort_unique,
};
use crate::index::{
    adopt, forget_dir, kids_of, lemma_fewer, living, nodes_of, Entry, Index, IndexView,
};
use crate::postings::{intersect_stream, Postings};
use crate::tree::{
    child_ids, child_of, has_parent, parents_first, path, same_shape, Node, NO_PARENT,
};
use crate::trigram::{
    candidate, for_each_trigram, has_trigram, lists_ok, named_with, pack, posting_of, postings_ok,
    trigram_at,
};
use crate::fold::folded;

verus! {

/// The text of a byte string, with what is not valid UTF-8 replaced.
pub uninterp spec fn lossy_text(b: Seq<u8>) -> Seq<char>;

/// `String::from_utf8_lossy`: the result depends on the bytes alone, and valid
/// UTF-8 is decoded as it stands. How invalid bytes are replaced is left
/// unsaid.
#[verifier::external_body]
pub(crate) fn lossy(b: &[u8]) -> (r: String)
    ensures
        r@ == lossy_text(b@),
        valid_utf8(b@) ==> r@ == decode_utf8(b@),
{
    String::from_utf8_lossy(b).into_owned()
}

/// Appends the elements of `list` to `stack`.
pub(crate) fn push_all(stack: &mut Vec<u32>, list: &Vec<u32>)
    ensures
        final(stack)@ == old(stack)@ + list@,
{
    let mut j: usize = 0;
    while j < list.len()
        invariant
            j <= list.len(),
            stack@ == old(stack)@ + list@.take(j as int),
        decreases list.len() - j,
    {
        stack.push(list[j]);
        assert(list@.take(j + 1) =~= list@.take(j as int).push(list@[j as int]));
        j = j + 1;
    }
    assert(list@.take(j as int) =~= list@);
}

/// Appends the elements of `list` to `stack`, the last one first.
pub(crate) fn push_all_reversed(stack: &mut Vec<u32>, list: &Vec<u32>)
    ensures
        final(stack)@ == old(stack)@ + list@.reverse(),
{
    let mut j: usize = list.len();
    while j > 0
        invariant
            j <= list.len(),
            stack@ == old(stack)@ + list@.skip(j as int).reverse(),
        decreases j,
    {
        j = j - 1;
        stack.push(list[j]);
        assert(list@.skip(j as int).reverse() =~= list@.skip(j + 1).reverse().push(
            list@[j as int],
        ));
    }
    assert(list@.skip(0) =~= list@);
}

/// Once no child of a killed folder is left alive, everything doomed is dead.
proof fn lemma_doomed_dead(v: IndexView, nodes: Seq<Node>, id: u32, i: int)
    requires
        parents_first(v.nodes),
        same_shape(v.nodes, nodes),
        v.has(id),
        !nodes[id as int].alive,
        forall|k: int|
            0 <= k < nodes.len() && has_parent(v.nodes, k) && v.nodes[v.nodes[k].parent as int].alive
                && !nodes[v.nodes[k].parent as int].alive
                && v.nodes[v.nodes[k].parent as int].is_dir ==> !(#[trigger] nodes[k]).alive,
        0 <= i < nodes.len(),
        v.doomed(id, i),
    ensures
        !nodes[i].alive,
    decreases i,
{
    reveal_with_fuel(IndexView::doomed, 2);
    if i != id {
        let p = v.nodes[i].parent as int;
        lemma_doomed_dead(v, nodes, id, p);
        assert(v.nodes[p].alive);
        assert(!nodes[i].alive);
    }
}

/// The names in `s` between separators, after `cur`.
pub open spec fn components_from(s: Seq<u8>, cur: Seq<u8>) -> Seq<Seq<u8>>
    decreases s.len(),
{
    let done = if cur.len() > 0 {
        seq![cur]
    } else {
        seq![]
    };
    if s.len() == 0 {
        done
    } else if s[0] == SLASH {
        done + components_from(s.skip(1), seq![])
    } else {
        components_from(s.skip(1), cur.push(s[0]))
    }
}

/// The non-empty names in `s` between separators.
pub open spec fn components(s: Seq<u8>) -> Seq<Seq<u8>> {
    components_from(s, seq![])
}

/// The names of `s` between separators.
fn split_components(s: &[u8]) -> (out: Vec<Vec<u8>>)
    ensures
        views(out@) == components(s@),
{
    let mut out: Vec<Vec<u8>> = Vec::new();
    let mut from: usize = 0;
    let mut i: usize = 0;
    proof {
        assert(s@.skip(0) =~= s@);
        assert(s@.subrange(0, 0) =~= Seq::<u8>::empty());
        assert(views(out@) + components(s@) =~= components(s@));
    }
    while i < s.len()
        invariant
            from <= i <= s.len(),
            views(out@) + components_from(s@.skip(i as int), s@.subrange(from as int, i as int))
                == components(s@),
        decreases s.len() - i,
    {
        let ghost before = views(out@);
        let ghost cur = s@.subrange(from as int, i as int);
        let ghost rest = s@.skip(i as int);
        assert(rest[0] == s@[i as int]);
        assert(rest.skip(1) =~= s@.skip(i + 1));
        if s[i] == SLASH {
            if from < i {
                out.push(copy_range(s, from, i));
                assert(views(out@) =~= before.push(cur));
            }
            from = i + 1;
            proof {
                assert(s@.subrange(from as int, i + 1) =~= Seq::<u8>::empty());
                assert(views(out@) + components_from(s@.skip(i + 1), seq![]) =~= before
                    + components_from(rest, cur));
            }
        } else {
            assert(s@.subrange(from as int, i + 1) =~= cur.push(s@[i as int]));
        }
        i = i + 1;
    }
    let ghost before = views(out@);
    let ghost cur = s@.subrange(from as int, i as int);
    if from < i {
        out.push(copy_range(s, from, i));
        assert(views(out@) =~= before.push(cur));
    }
    proof {
        assert(views(out@) =~= before + components_from(s@.skip(i as int), cur));
    }
    out
}

/// `p` begins with the components of `top`: what follows `top` in it, if
/// anything does, is a component of its own.
pub open spec fn heads(p: Seq<u8>, top: Seq<u8>) -> bool {
    &&& has_prefix(p, top)
    &&& p.len() == top.len() || p[top.len() as int] == SLASH || (top.len() > 0 && top.last()
        == SLASH)
}

impl IndexView {
    /// Where `names` lead from `from`, one living child at a time.
    pub open spec fn descend(self, from: u32, names: Seq<Seq<u8>>) -> Option<u32>
        decreases names.len(),
    {
        if names.len() == 0 {
            Some(from)
        } else {
            match self.child(from, names[0]) {
                Some(k) => self.descend(k, names.skip(1)),
                None => None,
            }
        }
    }

    /// The entry at `p`: the root's own path is stripped, and each component
    /// of the rest is followed down. `/homework` does not lie under `/home`.
    pub open spec fn resolved(self, p: Seq<u8>) -> Option<u32> {
        if self.root == NO_PARENT {
            None
        } else {
            let top = self.nodes[self.root as int].name;
            if top == seq![SLASH] {
                self.descend(self.root, components(p))
            } else if heads(p, top) {
                self.descend(self.root, components(p.skip(top.len() as int)))
            } else {
                None
            }
        }
    }
}

/// The number of postings under `keys`.
pub open spec fn postings_under(m: Map<u32, Postings>, keys: Seq<u32>) -> nat
    decreases keys.len(),
{
    if keys.len() == 0 {
        0
    } else {
        postings_under(m, keys.drop_last()) + m[keys.last()]@.len()
    }
}

/// `keys` are different trigrams that occur.
pub open spec fn are_keys(m: Map<u32, Postings>, keys: Seq<u32>) -> bool {
    &&& keys.no_duplicates()
    &&& forall|i: int| 0 <= i < keys.len() ==> m.contains_key(#[trigger] keys[i])
}

/// A trigram takes 24 bits, and no list is longer than there are ids.
proof fn lemma_key_bounds(nodes: Seq<Node>, m: Map<u32, Postings>, keys: Seq<u32>)
    requires
        parents_first(nodes),
        postings_ok(nodes, m),
        are_keys(m, keys),
    ensures
        keys.len() <= 0x100_0000,
        forall|i: int| 0 <= i < keys.len() ==> m[#[trigger] keys[i]]@.len() <= 0xffff_ffff,
{
    assert forall|i: int| 0 <= i < keys.len() implies (#[trigger] keys[i]) < 0x100_0000
        && m[keys[i]]@.len() <= 0xffff_ffff by {
        let k = keys[i];
        let ids = ids_where(named_with(nodes, k), nodes.len());
        assert(posting_of(m, k) == ids);
        lemma_ids_where(named_with(nodes, k), nodes.len());
        lemma_ascending_len(ids, nodes.len() as int);
        assert(m[k]@.len() > 0);
        assert(named_with(nodes, k)(ids[0] as int));
        let s = folded(nodes[ids[0] as int].name);
        let w = choose|w: int| 0 <= w < s.len() && w + 3 <= s.len() && #[trigger] trigram_at(s, w)
            == k;
        assert(trigram_at(s, w) == k);
    }
    lemma_distinct_len(keys, 0x100_0000);
}

/// So many different numbers fit below `n`.
pub proof fn lemma_distinct_len(s: Seq<u32>, n: int)
    requires
        s.no_duplicates(),
        0 <= n,
        forall|i: int| 0 <= i < s.len() ==> (#[trigger] s[i]) < n,
    ensures
        s.len() <= n,
{
    let t = s.map_values(|x: u32| x as int);
    assert(t.no_duplicates());
    t.unique_seq_to_set();
    let all = vstd::set_lib::set_int_range(0, n);
    vstd::set_lib::lemma_int_range(0, n);
    assert(t.to_set().subset_of(all)) by {
        assert forall|x: int| t.to_set().contains(x) implies all.contains(x) by {
            let i = choose|i: int| 0 <= i < t.len() && t[i] == x;
            assert(t[i] == s[i]);
        }
    }
    vstd::set_lib::lemma_len_subset(t.to_set(), all);
}

impl Index {
    /// The full path of `id`, as text.
    pub fn path_of(&self, id: u32) -> (out: String)
        requires
            self.wf(),
            self@.has(id),
        ensures
            out@ == lossy_text(path(self@.nodes, id as int)),
            valid_utf8(path(self@.nodes, id as int)) ==> out@ == decode_utf8(
                path(self@.nodes, id as int),
            ),
    {
        let b = self.path_bytes(id);
        lossy(b.as_slice())
    }

    /// Marks an entry dead, recursively for folders.
    pub fn remove(&mut self, id: u32)
        requires
            old(self).wf(),
            old(self)@.has(id),
        ensures
            final(self).wf(),
            final(self)@ == old(self)@.removed(id),
    {
        let ghost v = self@;
        let ghost n = v.nodes.len();
        let mut stack: Vec<u32> = Vec::new();
        stack.push(id);
        proof {
            assert(stack@[0] == id);
            assert(self.dir_ino@ =~= Map::new(
                |ino: u64|
                    v.dir_ino.contains_key(ino) && !(v.nodes[v.dir_ino[ino] as int].is_dir
                        && v.nodes[v.dir_ino[ino] as int].alive
                        && !self@.nodes[v.dir_ino[ino] as int].alive),
                |ino: u64| v.dir_ino[ino],
            ));
        }
        while stack.len() > 0
            invariant
                old(self).wf(),
                v == old(self)@,
                n == v.nodes.len(),
                v.has(id),
                self.children == old(self).children,
                self.trigrams == old(self).trigrams,
                self.trigrams_built == old(self).trigrams_built,
                self.root == old(self).root,
                same_shape(v.nodes, self@.nodes),
                forall|i: int|
                    0 <= i < n ==> (#[trigger] self@.nodes[i]).is_dir == v.nodes[i].is_dir,
                forall|i: int|
                    0 <= i < n && (#[trigger] self@.nodes[i]).alive ==> v.nodes[i].alive,
                forall|i: int|
                    0 <= i < n && v.nodes[i].alive && !(#[trigger] self@.nodes[i]).alive
                        ==> v.doomed(id, i),
                forall|q: int|
                    0 <= q < stack@.len() ==> (#[trigger] stack@[q]) < n && (stack@[q] == id || (
                    has_parent(v.nodes, stack@[q] as int)
                        && v.nodes[v.nodes[stack@[q] as int].parent as int].alive
                        && !self@.nodes[v.nodes[stack@[q] as int].parent as int].alive
                        && v.nodes[v.nodes[stack@[q] as int].parent as int].is_dir)),
                !self@.nodes[id as int].alive || stack@.contains(id),
                forall|k: int|
                    0 <= k < n && has_parent(v.nodes, k) && v.nodes[v.nodes[k].parent as int].alive
                        && !self@.nodes[v.nodes[k].parent as int].alive
                        && v.nodes[v.nodes[k].parent as int].is_dir && (
                    #[trigger] self@.nodes[k]).alive ==> stack@.contains(k as u32),
                self.dir_ino@ == Map::new(
                    |ino: u64|
                        v.dir_ino.contains_key(ino) && !(v.nodes[v.dir_ino[ino] as int].is_dir
                            && v.nodes[v.dir_ino[ino] as int].alive
                            && !self@.nodes[v.dir_ino[ino] as int].alive),
                    |ino: u64| v.dir_ino[ino],
                ),
            decreases ids_where(living(self@.nodes), n).len(), stack@.len(),
        {
            let ghost before = self@;
            let ghost stack0 = stack@;
            let cur: u32 = match stack.pop() {
                Some(c) => c,
                None => 0,
            };
            let ghost rest = stack@;
            let at: usize = cur as usize;
            proof {
                assert(stack0[stack0.len() - 1] == cur);
                assert(before.nodes[cur as int] == self.entries@[cur as int]@);
                assert forall|x: u32| stack0.contains(x) && x != cur implies rest.contains(x) by {
                    let q = choose|q: int| 0 <= q < stack0.len() && stack0[q] == x;
                    assert(rest[q] == x);
                }
                assert forall|q: int| 0 <= q < rest.len() implies rest[q] == stack0[q] by {}
            }
            if self.entries[at].alive {
                proof {
                    assert(before.nodes[cur as int].alive);
                    assert(v.doomed(id, cur as int));
                }
                self.entries[at].alive = false;
                proof {
                    assert(self@.nodes =~= before.nodes.update(
                        cur as int,
                        Node { alive: false, ..before.nodes[cur as int] },
                    ));
                    lemma_fewer(living(before.nodes), living(self@.nodes), n, cur as int);
                }
                if self.entries[at].is_dir {
                    proof {
                        assert(kids_of(self.children@, cur) == child_ids(v.nodes, cur));
                        lemma_ids_where(child_of(v.nodes, cur), n);
                    }
                    let ghost kids = child_ids(v.nodes, cur);
                    if let Some(list) = self.children.get(&cur) {
                        push_all(&mut stack, list);
                    }
                    proof {
                        assert(stack@ =~= rest + kids);
                        assert forall|q: int| 0 <= q < stack@.len() implies (#[trigger] stack@[q])
                            < n && (stack@[q] == id || (has_parent(v.nodes, stack@[q] as int)
                            && v.nodes[v.nodes[stack@[q] as int].parent as int].alive
                            && !self@.nodes[v.nodes[stack@[q] as int].parent as int].alive
                            && v.nodes[v.nodes[stack@[q] as int].parent as int].is_dir)) by {
                            if q < rest.len() {
                                assert(stack@[q] == stack0[q]);
                            } else {
                                assert(stack@[q] == kids[q - rest.len()]);
                                assert(child_of(v.nodes, cur)(stack@[q] as int));
                            }
                        }
                    }
                    forget_dir(&mut self.dir_ino, cur);
                }
                proof {
                    assert forall|x: u32| rest.contains(x) implies stack@.contains(x) by {
                        let q = choose|q: int| 0 <= q < rest.len() && rest[q] == x;
                        assert(stack@[q] == x);
                    }
                    assert forall|k: int|
                        0 <= k < n && has_parent(v.nodes, k)
                            && v.nodes[v.nodes[k].parent as int].alive
                            && !self@.nodes[v.nodes[k].parent as int].alive
                            && v.nodes[v.nodes[k].parent as int].is_dir && (
                        #[trigger] self@.nodes[k]).alive implies stack@.contains(k as u32) by {
                        assert(before.nodes[k].alive);
                        let p = v.nodes[k].parent;
                        if p == cur {
                            let kids = child_ids(v.nodes, cur);
                            assert(child_of(v.nodes, cur)(k));
                            assert(kids.contains(k as u32));
                            let q = choose|q: int| 0 <= q < kids.len() && kids[q] == k as u32;
                            assert(stack@[rest.len() + q] == k as u32);
                        } else {
                            assert(!before.nodes[p as int].alive);
                            assert(stack0.contains(k as u32));
                            assert(rest.contains(k as u32));
                        }
                    }
                    assert(self.dir_ino@ =~= Map::new(
                        |ino: u64|
                            v.dir_ino.contains_key(ino) && !(
                            v.nodes[v.dir_ino[ino] as int].is_dir
                                && v.nodes[v.dir_ino[ino] as int].alive
                                && !self@.nodes[v.dir_ino[ino] as int].alive),
                        |ino: u64| v.dir_ino[ino],
                    ));
                }
            }
        }
        proof {
            let nodes = self@.nodes;
            assert forall|i: int| 0 <= i < n implies nodes[i] == (Node {
                alive: v.nodes[i].alive && !v.doomed(id, i),
                ..v.nodes[i]
            }) by {
                if v.doomed(id, i) {
                    lemma_doomed_dead(v, nodes, id, i);
                }
                assert(v.nodes[i].parent == nodes[i].parent && v.nodes[i].name == nodes[i].name);
            }
            assert(nodes =~= v.removed(id).nodes);
            assert forall|ino: u64| v.dir_ino.contains_key(ino) implies (
            v.nodes[#[trigger] v.dir_ino[ino] as int].alive && !nodes[v.dir_ino[ino] as int].alive)
                == v.doomed(id, v.dir_ino[ino] as int) by {
                assert(old(self).dir_ino@[ino] < n);
                assert(nodes[v.dir_ino[ino] as int].alive == (v.nodes[v.dir_ino[ino] as int].alive
                    && !v.doomed(id, v.dir_ino[ino] as int)));
            }
            assert(self.dir_ino@ =~= v.removed(id).dir_ino);
            self.lemma_same_shape_wf(*old(self));
            assert forall|ino: u64| self.dir_ino@.contains_key(ino) implies (
            #[trigger] self.dir_ino@[ino]) < n by {
                assert(old(self).dir_ino@.contains_key(ino));
                assert(old(self).dir_ino@[ino] < n);
            }
            assert(self@ =~= v.removed(id));
        }
    }

    /// Walks the tree by path components. Used when an event names a folder
    /// whose inode is not known yet.
    pub fn resolve_path(&self, p: &[u8]) -> (r: Option<u32>)
        requires
            self.wf(),
        ensures
            r == self@.resolved(p@),
            r matches Some(k) ==> self@.has(k),
    {
        if self.root == NO_PARENT {
            return None;
        }
        let top = &self.entries[self.root as usize].name;
        assert(self@.nodes[self.root as int].name == top@);
        let lone = top.len() == 1 && top[0] == SLASH;
        proof {
            if lone {
                assert(top@ =~= seq![SLASH]);
            }
        }
        let names = if lone {
            split_components(p)
        } else {
            if !starts_with(p, top.as_slice()) {
                return None;
            }
            let n = top.len();
            if p.len() > n && p[n] != SLASH && (n == 0 || top[n - 1] != SLASH) {
                return None;
            }
            let rest = copy_range(p, top.len(), p.len());
            assert(rest@ =~= p@.skip(top@.len() as int));
            split_components(rest.as_slice())
        };
        let ghost all = views(names@);
        let mut cur: u32 = self.root;
        let mut i: usize = 0;
        assert(all.skip(0) =~= all);
        while i < names.len()
            invariant
                self.wf(),
                all == views(names@),
                i <= names.len(),
                self@.has(cur),
                self@.resolved(p@) == self@.descend(self.root, all),
                self@.descend(cur, all.skip(i as int)) == self@.descend(self.root, all),
            decreases names.len() - i,
        {
            assert(all.skip(i as int)[0] == names@[i as int]@);
            assert(all.skip(i as int).skip(1) =~= all.skip(i + 1));
            match self.find_child(cur, names[i].as_slice()) {
                Some(k) => {
                    cur = k;
                },
                None => {
                    return None;
                },
            }
            i = i + 1;
        }
        Some(cur)
    }

    /// Rebuilds an index from its arena. The lists of children are derived from
    /// the parent ids; inode numbers are left out and come back with the scan
    /// that runs at startup.
    pub fn from_snapshot(entries: Vec<Entry>, root: u32) -> (ix: Index)
        requires
            parents_first(nodes_of(entries@)),
            root == NO_PARENT || root < entries@.len(),
        ensures
            ix.wf(),
            ix@ == (IndexView {
                nodes: nodes_of(entries@),
                root,
                dir_ino: Map::empty(),
                indexed: false,
            }),
    {
        let ghost nodes = nodes_of(entries@);
        let mut children: HashMap<u32, Vec<u32>> = HashMap::new();
        let mut i: usize = 0;
        while i < entries.len()
            invariant
                i <= entries.len(),
                nodes == nodes_of(entries@),
                parents_first(nodes),
                forall|p: u32|
                    p != NO_PARENT ==> #[trigger] kids_of(children@, p) == ids_where(
                        child_of(nodes, p),
                        i as nat,
                    ),
            decreases entries.len() - i,
        {
            let parent = entries[i].parent;
            let ghost before = children@;
            assert(nodes[i as int].parent == parent);
            if parent != NO_PARENT {
                adopt(&mut children, parent, i as u32);
            }
            proof {
                assert forall|p: u32| p != NO_PARENT implies #[trigger] kids_of(children@, p)
                    == ids_where(child_of(nodes, p), (i + 1) as nat) by {
                    assert(kids_of(before, p) == ids_where(child_of(nodes, p), i as nat));
                    assert(child_of(nodes, p)(i as int) == (parent == p));
                }
            }
            i = i + 1;
        }
        Index {
            entries,
            dir_ino: HashMap::new(),
            children,
            root,
            trigrams: HashMap::new(),
            trigrams_built: false,
        }
    }

    /// Builds the trigram lists in one pass, after the initial walk.
    pub fn build_trigrams(&mut self)
        requires
            old(self).wf(),
        ensures
            final(self).wf(),
            final(self)@ == (IndexView { indexed: true, ..old(self)@ }),
    {
        let ghost nodes = self@.nodes;
        let mut m: HashMap<u32, Postings> = HashMap::new();
        let mut i: usize = 0;
        while i < self.entries.len()
            invariant
                self.wf(),
                *self == *old(self),
                nodes == self@.nodes,
                i <= nodes.len(),
                lists_ok(m@),
                forall|k: u32| #[trigger]
                    posting_of(m@, k) == ids_where(named_with(nodes, k), i as nat),
            decreases self.entries.len() - i,
        {
            let ghost before = m@;
            proof {
                assert forall|k: u32, j: int| 0 <= j < posting_of(before, k).len() implies (
                #[trigger] posting_of(before, k)[j]) < i by {
                    assert(posting_of(before, k) == ids_where(named_with(nodes, k), i as nat));
                    lemma_ids_where(named_with(nodes, k), i as nat);
                }
            }
            for_each_trigram(&mut m, self.entries[i].name.as_slice(), i as u32);
            proof {
                assert(nodes[i as int].name == self.entries@[i as int].name@);
                assert forall|k: u32| #[trigger]
                    posting_of(m@, k) == ids_where(named_with(nodes, k), (i + 1) as nat) by {
                    assert(posting_of(before, k) == ids_where(named_with(nodes, k), i as nat));
                }
            }
            i = i + 1;
        }
        self.trigrams = m;
        self.trigrams_built = true;
    }

    /// How many trigrams there are, and how many postings in all.
    pub fn trigram_stats(&self) -> (r: (usize, u64))
        requires
            self.wf(),
        ensures
            r.0 == self.trigrams@.len(),
            exists|keys: Seq<u32>| #[trigger]
                are_keys(self.trigrams@, keys) && keys.len() == r.0 && r.1 == postings_under(
                    self.trigrams@,
                    keys,
                ),
    {
        let mut total: u64 = 0;
        let ghost mut keys: Seq<u32> = Seq::empty();
        let ghost m = self.trigrams@;
        for (k, p) in it: self.trigrams.iter()
            invariant
                m == self.trigrams@,
                self.wf(),
                it.seq() == self.trigrams.iter().remaining(),
                it.seq().no_duplicates(),
                keys.len() == it.index(),
                forall|j: int| 0 <= j < keys.len() ==> #[trigger] keys[j] == *it.seq()[j].0,
                are_keys(m, keys),
                total == postings_under(m, keys),
                total <= keys.len() * 0xffff_ffff,
        {
            proof {
                let more = keys.push(*k);
                assert(more.drop_last() =~= keys);
                assert(m.contains_key(*k) && m[*k] == *p);
                assert(!keys.contains(*k)) by {
                    if keys.contains(*k) {
                        let j = choose|j: int| 0 <= j < keys.len() && keys[j] == *k;
                        assert(*it.seq()[j].0 == *k);
                        assert(m[*it.seq()[j].0] == *it.seq()[j].1);
                        assert(it.seq()[j] == it.seq()[it.index() as int]);
                    }
                }
                assert(more.no_duplicates());
                assert(are_keys(m, more));
                assert(self.trigrams_built);
                lemma_key_bounds(self@.nodes, m, more);
                assert(more[more.len() - 1] == *k);
                keys = more;
            }
            total = total + p.len() as u64;
        }
        (self.trigrams.len(), total)
    }

    /// The entries whose folded name has every trigram of `key`. `None` means
    /// that a trigram is unknown, so that no name can hold `key`.
    pub fn trigram_candidates(&self, key: &[u8]) -> (r: Option<Vec<u32>>)
        requires
            self.wf(),
            self.trigrams_built,
            key.len() >= 3,
        ensures
            match r {
                Some(c) => c@ == ids_where(candidate(self@.nodes, key@), self@.nodes.len()),
                None => ids_where(candidate(self@.nodes, key@), self@.nodes.len()) == Seq::<
                    u32,
                >::empty(),
            },
    {
        let ghost nodes = self@.nodes;
        let ghost n = nodes.len();
        let ghost m = self.trigrams@;
        let last: usize = key.len() - 2;
        let mut found: Vec<u32> = Vec::new();
        let mut w: usize = 0;
        while w < last
            invariant
                last == key.len() - 2,
                w <= last,
                found@.len() == w,
                forall|j: int| 0 <= j < w ==> #[trigger] found@[j] == trigram_at(key@, j),
            decreases last - w,
        {
            found.push(pack(key, w));
            w = w + 1;
        }
        let ghost all = found@;
        let keys = sort_unique(found);
        proof {
            assert(all[0] == trigram_at(key@, 0));
            assert(all.contains(all[0]));
            assert(keys@.contains(all[0]));
        }
        // The rarest trigram comes first, so that the working set shrinks
        // fastest.
        let mut best: usize = 0;
        let mut best_len: usize = 0;
        let mut j: usize = 0;
        while j < keys.len()
            invariant
                self.wf(),
                self.trigrams_built,
                nodes == self@.nodes,
                n == nodes.len(),
                m == self.trigrams@,
                j <= keys.len(),
                best < keys.len() || j == 0,
                forall|q: int| 0 <= q < j ==> m.contains_key(#[trigger] keys@[q]),
                forall|x: u32| #[trigger] keys@.contains(x) <==> all.contains(x),
                all.len() == key.len() - 2,
                forall|q: int| 0 <= q < all.len() ==> #[trigger] all[q] == trigram_at(key@, q),
            decreases keys.len() - j,
        {
            match self.trigrams.get(&keys[j]) {
                Some(p) => {
                    assert(m.contains_key(keys@[j as int]) && m[keys@[j as int]] == *p);
                    let len = p.len();
                    if j == 0 || len < best_len {
                        best = j;
                        best_len = len;
                    }
                },
                None => {
                    proof {
                        let k = keys@[j as int];
                        assert(keys@.contains(k));
                        assert(all.contains(k));
                        let q = choose|q: int| 0 <= q < all.len() && all[q] == k;
                        assert(trigram_at(key@, q) == k);
                        assert(posting_of(m, k) == ids_where(named_with(nodes, k), n));
                        lemma_ids_where(named_with(nodes, k), n);
                        lemma_ids_where(candidate(nodes, key@), n);
                        let c = ids_where(candidate(nodes, key@), n);
                        if c.len() > 0 {
                            assert(candidate(nodes, key@)(c[0] as int));
                            assert(has_trigram(folded(nodes[c[0] as int].name), k));
                            assert(named_with(nodes, k)(c[0] as int));
                            assert(posting_of(m, k).contains(c[0]));
                        }
                        assert(c =~= Seq::<u32>::empty());
                    }
                    return None;
                },
            }
            j = j + 1;
        }
        proof {
            assert(keys@.len() > 0);
        }
        let mut acc: Vec<u32> = match self.trigrams.get(&keys[best]) {
            Some(p) => p.to_vec(),
            None => Vec::new(),
        };
        proof {
            let k = keys@[best as int];
            assert(m.contains_key(k));
            assert(posting_of(m, k) == ids_where(named_with(nodes, k), n));
            lemma_ids_where(named_with(nodes, k), n);
        }
        j = 0;
        while j < keys.len()
            invariant
                self.wf(),
                self.trigrams_built,
                nodes == self@.nodes,
                n == nodes.len(),
                m == self.trigrams@,
                j <= keys.len(),
                best < keys.len(),
                forall|q: int| 0 <= q < keys.len() ==> m.contains_key(#[trigger] keys@[q]),
                ascending(acc@),
                forall|x: u32| #[trigger]
                    acc@.contains(x) <==> (posting_of(m, keys@[best as int]).contains(x) && forall|
                        q: int,
                    |
                        0 <= q < j ==> posting_of(m, #[trigger] keys@[q]).contains(x)),
            decreases keys.len() - j,
        {
            if j != best && acc.len() > 0 {
                if let Some(p) = self.trigrams.get(&keys[j]) {
                    assert(m[keys@[j as int]] == *p);
                    let ghost before = acc@;
                    acc = intersect_stream(&acc, p);
                    proof {
                        assert forall|x: u32| #[trigger]
                            acc@.contains(x) <==> (posting_of(m, keys@[best as int]).contains(x)
                                && forall|q: int|
                                0 <= q < j + 1 ==> posting_of(m, #[trigger] keys@[q]).contains(
                                    x,
                                )) by {
                            assert(acc@.contains(x) <==> before.contains(x) && p@.contains(x));
                            assert(posting_of(m, keys@[j as int]) == p@);
                        }
                    }
                }
            }
            proof {
                if acc@.len() == 0 {
                    assert forall|x: u32| !acc@.contains(x) by {}
                }
                assert forall|x: u32| #[trigger]
                    acc@.contains(x) <==> (posting_of(m, keys@[best as int]).contains(x) && forall|
                        q: int,
                    |
                        0 <= q < j + 1 ==> posting_of(m, #[trigger] keys@[q]).contains(x)) by {}
            }
            j = j + 1;
        }
        proof {
            let keep = candidate(nodes, key@);
            assert forall|x: u32| #[trigger] acc@.contains(x) <==> (x < n && keep(x as int)) by {
                let name = folded(nodes[x as int].name);
                if acc@.contains(x) {
                    assert(posting_of(m, keys@[best as int]).contains(x));
                    lemma_ids_where_contains(named_with(nodes, keys@[best as int]), n, x);
                    assert(posting_of(m, keys@[best as int]) == ids_where(
                        named_with(nodes, keys@[best as int]),
                        n,
                    ));
                    assert forall|w: int| 0 <= w && w + 3 <= key@.len() implies has_trigram(
                        name,
                        #[trigger] trigram_at(key@, w),
                    ) by {
                        let k = trigram_at(key@, w);
                        assert(all[w] == k);
                        assert(all.contains(k));
                        assert(keys@.contains(k));
                        let q = choose|q: int| 0 <= q < keys@.len() && keys@[q] == k;
                        assert(posting_of(m, keys@[q]).contains(x));
                        assert(posting_of(m, k) == ids_where(named_with(nodes, k), n));
                        lemma_ids_where_contains(named_with(nodes, k), n, x);
                    }
                }
                if x < n && keep(x as int) {
                    assert forall|q: int| 0 <= q < keys@.len() implies posting_of(
                        m,
                        #[trigger] keys@[q],
                    ).contains(x) by {
                        let k = keys@[q];
                        assert(keys@.contains(k));
                        assert(all.contains(k));
                        let w = choose|w: int| 0 <= w < all.len() && all[w] == k;
                        assert(has_trigram(name, trigram_at(key@, w)));
                        assert(posting_of(m, k) == ids_where(named_with(nodes, k), n));
                        lemma_ids_where_contains(named_with(nodes, k), n, x);
                    }
                }
            }
            assert forall|q: int| 0 <= q < acc@.len() implies (#[trigger] acc@[q]) < n && keep(
                acc@[q] as int,
            ) by {
                assert(acc@.contains(acc@[q]));
            }
            assert forall|i: int| 0 <= i < n && #[trigger] keep(i) implies acc@.contains(
                i as u32,
            ) by {}
            lemma_ids_where_unique(keep, n, acc@);
        }
        Some(acc)
    }
}

/// The figures count every trigram once, and under each every name that holds it.
pub proof fn postings_are_counted_once(m: Map<u32, Postings>, keys: Seq<u32>, k: u32)
    ensures
        postings_under(m, keys.push(k)) == postings_under(m, keys) + m[k]@.len(),
        postings_under(m, Seq::<u32>::empty()) == 0,
        are_keys(m, keys.push(k)) ==> m.contains_key(k) && !keys.contains(k),
{
    let more = keys.push(k);
    assert(more.drop_last() =~= keys);
    if are_keys(m, more) {
        assert(m.contains_key(more[keys.len() as int]));
        if keys.contains(k) {
            let i = choose|i: int| 0 <= i < keys.len() && keys[i] == k;
            assert(more[i] == more[keys.len() as int]);
        }
    }
}

} // verus!
