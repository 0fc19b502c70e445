//! In-memory filesystem index.
//!
//! Entries are stored in a flat arena; each holds only its own name plus a
//! parent id, so a path is reconstructed by walking up. Names are raw bytes.

use vstd::prelude::*;
use vstd::std_specs::iter::IteratorSpec;
use std::collections::HashMap;
use crate::bytes::{append, copy, same, SLASH};
use crate::ids::{ascending, ids_where, lemma_ids_where};
use crate::postings::Postings;
use crate::tree::{
    child_ids, child_of, has_parent, lemma_path_nonempty, lemma_push_children,
    lemma_same_shape_children, parents_first, path, same_shape, separator, Node, NO_PARENT,
};
use crate::trigram::{
    for_each_trigram, lemma_push_postings, lemma_same_shape_postings, named_with, posting_of,
    postings_ok,
};

verus! {

/// One file or folder. A dead entry stays in the arena.
pub struct Entry {
    pub parent: u32,
    pub name: Vec<u8>,
    pub is_dir: bool,
    pub alive: bool,
}

impl View for Entry {
    type V = Node;

    open spec fn view(&self) -> Node {
        Node { parent: self.parent, name: self.name@, is_dir: self.is_dir, alive: self.alive }
    }
}

/// The model of an arena.
pub open spec fn nodes_of(entries: Seq<Entry>) -> Seq<Node> {
    Seq::new(entries.len(), |i: int| entries[i]@)
}

/// The children listed under `p`.
pub open spec fn kids_of(m: Map<u32, Vec<u32>>, p: u32) -> Seq<u32> {
    if m.contains_key(p) {
        m[p]@
    } else {
        seq![]
    }
}

/// The lists of children are those of the model.
pub open spec fn kids_ok(nodes: Seq<Node>, m: Map<u32, Vec<u32>>) -> bool {
    forall|p: u32| p != NO_PARENT ==> #[trigger] kids_of(m, p) == child_ids(nodes, p)
}

/// The model of an index.
#[verifier::ext_equal]
pub struct IndexView {
    /// The arena, dead entries included.
    pub nodes: Seq<Node>,
    /// The entry whose name is the path that was indexed, or `NO_PARENT`.
    pub root: u32,
    /// Folders by inode number.
    pub dir_ino: Map<u64, u32>,
    /// Whether the trigram lists have been built.
    pub indexed: bool,
}

/// The index: the arena, and what is derived from it for lookups.
pub struct Index {
    pub entries: Vec<Entry>,
    /// inode -> entry id, folders only. Used to resolve events, which identify
    /// the folder in which something changed.
    pub dir_ino: HashMap<u64, u32>,
    /// parent id -> child ids.
    pub children: HashMap<u32, Vec<u32>>,
    pub root: u32,
    /// trigram -> entry ids, ascending. A deleted entry is filtered when a
    /// candidate is verified rather than being spliced out.
    pub trigrams: HashMap<u32, Postings>,
    pub trigrams_built: bool,
}

impl View for Index {
    type V = IndexView;

    open spec fn view(&self) -> IndexView {
        IndexView {
            nodes: nodes_of(self.entries@),
            root: self.root,
            dir_ino: self.dir_ino@,
            indexed: self.trigrams_built,
        }
    }
}

/// Selects the children of `p` that are called `name`.
pub open spec fn named(nodes: Seq<Node>, p: u32, name: Seq<u8>) -> spec_fn(int) -> bool {
    |i: int| nodes[i].parent == p && nodes[i].name == name
}

/// Selects the living children of `p` that are called `name`.
pub open spec fn named_alive(nodes: Seq<Node>, p: u32, name: Seq<u8>) -> spec_fn(int) -> bool {
    |i: int| nodes[i].parent == p && nodes[i].name == name && nodes[i].alive
}

/// The first id that `keep` selects.
pub open spec fn first_where(keep: spec_fn(int) -> bool, n: nat) -> Option<u32> {
    let ids = ids_where(keep, n);
    if ids.len() > 0 {
        Some(ids[0])
    } else {
        None
    }
}

/// Selects the living nodes.
pub open spec fn living(nodes: Seq<Node>) -> spec_fn(int) -> bool {
    |i: int| nodes[i].alive
}

impl IndexView {
    /// Whether `id` names an entry.
    pub open spec fn has(self, id: u32) -> bool {
        id < self.nodes.len()
    }

    /// The index with one more entry.
    pub open spec fn with_entry(self, parent: u32, name: Seq<u8>, is_dir: bool) -> IndexView {
        IndexView {
            nodes: self.nodes.push(Node { parent, name, is_dir, alive: true }),
            ..self
        }
    }

    /// The index with `id` entered as the folder with inode `ino`, if it is
    /// one.
    pub open spec fn with_ino(self, is_dir: bool, ino: u64, id: u32) -> IndexView {
        if is_dir {
            IndexView { dir_ino: self.dir_ino.insert(ino, id), ..self }
        } else {
            self
        }
    }

    /// The index with entry `id` alive, as a folder or not.
    pub open spec fn with_revived(self, id: u32, is_dir: bool) -> IndexView {
        let n = self.nodes[id as int];
        IndexView {
            nodes: self.nodes.update(id as int, Node { is_dir, alive: true, ..n }),
            ..self
        }
    }

    /// The first child of `parent` called `name`, dead or alive.
    pub open spec fn any_child(self, parent: u32, name: Seq<u8>) -> Option<u32> {
        if parent == NO_PARENT {
            None
        } else {
            first_where(named(self.nodes, parent, name), self.nodes.len())
        }
    }

    /// The first living child of `parent` called `name`.
    pub open spec fn child(self, parent: u32, name: Seq<u8>) -> Option<u32> {
        first_where(named_alive(self.nodes, parent, name), self.nodes.len())
    }

    /// The index after `add`.
    pub open spec fn added(self, parent: u32, name: Seq<u8>, is_dir: bool, ino: u64) -> (
        IndexView,
        u32,
    ) {
        match self.any_child(parent, name) {
            Some(k) => (self.with_revived(k, is_dir).with_ino(is_dir, ino, k), k),
            None => {
                let id = self.nodes.len() as u32;
                (self.with_entry(parent, name, is_dir).with_ino(is_dir, ino, id), id)
            },
        }
    }

    /// Whether removing `id` kills `i`: it is alive, and so is every folder
    /// between it and `id`.
    pub open spec fn doomed(self, id: u32, i: int) -> bool
        decreases i,
    {
        self.nodes[i].alive && (i == id || (has_parent(self.nodes, i) && self.doomed(
            id,
            self.nodes[i].parent as int,
        ) && self.nodes[self.nodes[i].parent as int].is_dir))
    }

    /// The index after `remove`.
    pub open spec fn removed(self, id: u32) -> IndexView {
        IndexView {
            nodes: Seq::new(
                self.nodes.len(),
                |i: int|
                    Node { alive: self.nodes[i].alive && !self.doomed(id, i), ..self.nodes[i] },
            ),
            dir_ino: Map::new(
                |ino: u64|
                    self.dir_ino.contains_key(ino) && !(self.nodes[self.dir_ino[ino] as int].is_dir
                        && self.doomed(id, self.dir_ino[ino] as int)),
                |ino: u64| self.dir_ino[ino],
            ),
            ..self
        }
    }

    /// `id` may serve as a parent.
    pub open spec fn parent_ok(self, id: u32) -> bool {
        id == NO_PARENT || self.has(id)
    }
}

/// The first id selected is the one before which none is selected.
pub proof fn lemma_first_where(keep: spec_fn(int) -> bool, n: nat, x: int)
    requires
        n <= NO_PARENT,
        0 <= x < n,
        keep(x),
        forall|i: int| 0 <= i < x ==> !#[trigger] keep(i),
    ensures
        first_where(keep, n) == Some(x as u32),
{
    lemma_ids_where(keep, n);
    let s = ids_where(keep, n);
    assert(s.contains(x as u32));
    let k = choose|k: int| 0 <= k < s.len() && s[k] == x as u32;
    if k > 0 {
        assert(s[0] < s[k]);
        assert(keep(s[0] as int));
    }
}

pub proof fn lemma_first_where_none(keep: spec_fn(int) -> bool, n: nat)
    requires
        n <= NO_PARENT,
        forall|i: int| 0 <= i < n ==> !#[trigger] keep(i),
    ensures
        first_where(keep, n) is None,
{
    lemma_ids_where(keep, n);
    let s = ids_where(keep, n);
    if s.len() > 0 {
        assert(keep(s[0] as int));
    }
}

/// Fewer ids are selected where one that was is no longer.
pub proof fn lemma_fewer(f: spec_fn(int) -> bool, g: spec_fn(int) -> bool, n: nat, x: int)
    requires
        forall|i: int| 0 <= i < n && #[trigger] g(i) ==> f(i),
        0 <= x < n,
        f(x),
        !g(x),
    ensures
        ids_where(g, n).len() < ids_where(f, n).len(),
    decreases n,
{
    let m = (n - 1) as nat;
    if x == m {
        lemma_no_more(f, g, m);
    } else {
        lemma_fewer(f, g, m, x);
        assert(g(n - 1) ==> f(n - 1));
    }
}

pub proof fn lemma_no_more(f: spec_fn(int) -> bool, g: spec_fn(int) -> bool, n: nat)
    requires
        forall|i: int| 0 <= i < n && #[trigger] g(i) ==> f(i),
    ensures
        ids_where(g, n).len() <= ids_where(f, n).len(),
    decreases n,
{
    if n > 0 {
        lemma_no_more(f, g, (n - 1) as nat);
        assert(g(n - 1) ==> f(n - 1));
    }
}

/// Adds `id` to the children of `parent`.
pub(crate) fn adopt(m: &mut HashMap<u32, Vec<u32>>, parent: u32, id: u32)
    ensures
        forall|p: u32| p != parent ==> #[trigger] kids_of(final(m)@, p) == kids_of(old(m)@, p),
        kids_of(final(m)@, parent) == kids_of(old(m)@, parent).push(id),
{
    let list = m.entry(parent).or_insert(Vec::new());
    list.push(id);
}

/// Drops every inode that stands for `id`.
pub(crate) fn forget_dir(m: &mut HashMap<u64, u32>, id: u32)
    ensures
        final(m)@ == Map::new(
            |ino: u64| old(m)@.contains_key(ino) && old(m)@[ino] != id,
            |ino: u64| old(m)@[ino],
        ),
{
    let mut gone: Vec<u64> = Vec::new();
    for (ino, v) in it: m.iter()
        invariant
            forall|k: int|
                0 <= k < gone@.len() ==> m@.contains_key(#[trigger] gone@[k]) && m@[gone@[k]]
                    == id,
            forall|k: int|
                0 <= k < it.index() && *(#[trigger] it.seq()[k]).1 == id ==> gone@.contains(
                    *it.seq()[k].0,
                ),
            it.seq() == m.iter().remaining(),
            *m == *old(m),
    {
        let ghost before = gone@;
        if *v == id {
            gone.push(*ino);
        }
        proof {
            assert forall|k: int|
                0 <= k < it.index() + 1 && *(#[trigger] it.seq()[k]).1 == id implies gone@.contains(
                *it.seq()[k].0,
            ) by {
                if k < it.index() {
                    assert(before.contains(*it.seq()[k].0));
                    let q = choose|q: int| 0 <= q < before.len() && before[q] == *it.seq()[k].0;
                    assert(gone@[q] == *it.seq()[k].0);
                } else {
                    assert(gone@[before.len() as int] == *ino);
                }
            }
        }
    }
    assert(forall|ino: u64|
        m@.contains_key(ino) && m@[ino] == id ==> #[trigger] gone@.contains(ino));
    let mut i: usize = 0;
    while i < gone.len()
        invariant
            i <= gone.len(),
            forall|k: int|
                0 <= k < gone@.len() ==> old(m)@.contains_key(#[trigger] gone@[k]) && old(
                    m,
                )@[gone@[k]] == id,
            forall|ino: u64|
                old(m)@.contains_key(ino) && old(m)@[ino] == id ==> #[trigger] gone@.contains(ino),
            forall|ino: u64| #[trigger]
                m@.contains_key(ino) <==> old(m)@.contains_key(ino) && !gone@.take(
                    i as int,
                ).contains(ino),
            forall|ino: u64| #[trigger] m@.contains_key(ino) ==> m@[ino] == old(m)@[ino],
        decreases gone.len() - i,
    {
        let ino = gone[i];
        m.remove(&ino);
        proof {
            assert(gone@.take(i + 1) =~= gone@.take(i as int).push(ino));
            assert forall|x: u64| #[trigger]
                m@.contains_key(x) <==> old(m)@.contains_key(x) && !gone@.take(i + 1).contains(
                    x,
                ) by {
                crate::ids::lemma_push_contains(gone@.take(i as int), ino, x);
            }
        }
        i = i + 1;
    }
    proof {
        assert(gone@.take(i as int) =~= gone@);
        assert(m@ =~= Map::new(
            |ino: u64| old(m)@.contains_key(ino) && old(m)@[ino] != id,
            |ino: u64| old(m)@[ino],
        ));
    }
}

impl Index {
    /// The arena is a forest, and everything derived from it is in step.
    pub open spec fn wf(self) -> bool {
        &&& parents_first(self@.nodes)
        &&& self.root == NO_PARENT || self.root < self@.nodes.len()
        &&& forall|ino: u64|
            self.dir_ino@.contains_key(ino) ==> (#[trigger] self.dir_ino@[ino])
                < self@.nodes.len()
        &&& kids_ok(self@.nodes, self.children@)
        &&& self.trigrams_built ==> postings_ok(self@.nodes, self.trigrams@)
        &&& !self.trigrams_built ==> self.trigrams@ == Map::<u32, Postings>::empty()
    }

    pub fn new() -> (ix: Index)
        ensures
            ix.wf(),
            ix@ == (IndexView {
                nodes: Seq::empty(),
                root: NO_PARENT,
                dir_ino: Map::empty(),
                indexed: false,
            }),
    {
        let ix = Index {
            entries: Vec::new(),
            dir_ino: HashMap::new(),
            children: HashMap::new(),
            root: NO_PARENT,
            trigrams: HashMap::new(),
            trigrams_built: false,
        };
        assert(ix@.nodes =~= Seq::<Node>::empty());
        ix
    }

    /// How many entries are alive.
    pub fn len(&self) -> (n: usize)
        requires
            self.wf(),
        ensures
            n == ids_where(living(self@.nodes), self@.nodes.len()).len(),
    {
        let mut n: usize = 0;
        let mut i: usize = 0;
        while i < self.entries.len()
            invariant
                i <= self.entries.len(),
                n <= i,
                n == ids_where(living(self@.nodes), i as nat).len(),
            decreases self.entries.len() - i,
        {
            assert(self@.nodes[i as int].alive == self.entries@[i as int].alive);
            if self.entries[i].alive {
                n = n + 1;
            }
            i = i + 1;
        }
        n
    }

    /// How many arena slots are in use, dead ones included.
    pub fn capacity_used(&self) -> (n: usize)
        ensures
            n == self@.nodes.len(),
    {
        self.entries.len()
    }

    pub fn set_root(&mut self, id: u32)
        requires
            old(self).wf(),
            old(self)@.parent_ok(id),
        ensures
            final(self).wf(),
            final(self)@ == (IndexView { root: id, ..old(self)@ }),
    {
        self.root = id;
    }

    pub fn root_id(&self) -> (id: u32)
        ensures
            id == self@.root,
    {
        self.root
    }

    /// Every arena slot, dead ones included, for snapshotting.
    pub fn raw_entries(&self) -> (entries: &[Entry])
        ensures
            entries@ == self.entries@,
    {
        self.entries.as_slice()
    }

    pub fn raw_len(&self) -> (n: usize)
        ensures
            n == self@.nodes.len(),
    {
        self.entries.len()
    }

    /// The folder with inode `ino`, if it is known.
    pub fn dir_by_ino(&self, ino: u64) -> (r: Option<u32>)
        ensures
            r == (if self@.dir_ino.contains_key(ino) {
                Some(self@.dir_ino[ino])
            } else {
                None
            }),
    {
        match self.dir_ino.get(&ino) {
            Some(id) => Some(*id),
            None => None,
        }
    }

    /// Appends an entry, with no inode.
    fn insert(&mut self, parent: u32, name: &[u8], is_dir: bool) -> (id: u32)
        requires
            old(self).wf(),
            old(self)@.parent_ok(parent),
            old(self)@.nodes.len() < NO_PARENT,
        ensures
            final(self).wf(),
            id == old(self)@.nodes.len(),
            final(self)@ == old(self)@.with_entry(parent, name@, is_dir),
    {
        let id: u32 = self.entries.len() as u32;
        let ghost nodes = self@.nodes;
        let ghost n = Node { parent, name: name@, is_dir, alive: true };
        if self.trigrams_built {
            let ghost before = self.trigrams@;
            proof {
                assert forall|k: u32, j: int| 0 <= j < posting_of(before, k).len() implies (
                #[trigger] posting_of(before, k)[j]) < id by {
                    assert(posting_of(before, k) == ids_where(named_with(nodes, k), nodes.len()));
                    lemma_ids_where(named_with(nodes, k), nodes.len());
                }
            }
            for_each_trigram(&mut self.trigrams, name, id);
            proof {
                lemma_push_postings(nodes, n, before, self.trigrams@);
            }
        }
        self.entries.push(Entry { parent, name: copy(name), is_dir, alive: true });
        let ghost kids = self.children@;
        if parent != NO_PARENT {
            adopt(&mut self.children, parent, id);
        }
        proof {
            assert(self@.nodes =~= nodes.push(n));
            assert forall|p: u32| p != NO_PARENT implies #[trigger] kids_of(self.children@, p)
                == child_ids(self@.nodes, p) by {
                lemma_push_children(nodes, n, p);
                assert(kids_of(kids, p) == child_ids(nodes, p));
            }
        }
        id
    }

    /// Inserts without checking for an existing sibling of the same name. Only
    /// valid during the initial walk, where the listing guarantees uniqueness;
    /// skipping the check keeps the walk linear.
    pub fn add_new(&mut self, parent: u32, name: &[u8], is_dir: bool, ino: u64) -> (id: u32)
        requires
            old(self).wf(),
            old(self)@.parent_ok(parent),
            old(self)@.nodes.len() < NO_PARENT,
        ensures
            final(self).wf(),
            id == old(self)@.nodes.len(),
            final(self)@ == old(self)@.with_entry(parent, name@, is_dir).with_ino(is_dir, ino, id),
    {
        let id = self.insert(parent, name, is_dir);
        if is_dir {
            self.dir_ino.insert(ino, id);
        }
        id
    }

    /// Inserts an entry without registering its inode. Used for filesystems
    /// other than the watched one: their inode numbers would collide with the
    /// watched one's and misroute events.
    pub fn insert_foreign(&mut self, parent: u32, name: &[u8], is_dir: bool) -> (id: u32)
        requires
            old(self).wf(),
            old(self)@.parent_ok(parent),
            old(self)@.nodes.len() < NO_PARENT,
        ensures
            final(self).wf(),
            id == old(self)@.nodes.len(),
            final(self)@ == old(self)@.with_entry(parent, name@, is_dir),
    {
        self.insert(parent, name, is_dir)
    }

    /// Marks `id` alive, as a folder or not.
    pub(crate) fn revive(&mut self, id: u32, is_dir: bool)
        requires
            old(self).wf(),
            old(self)@.has(id),
        ensures
            final(self).wf(),
            final(self)@ == old(self)@.with_revived(id, is_dir),
            final(self).children == old(self).children,
    {
        let ghost nodes = self@.nodes;
        let k: usize = id as usize;
        self.entries[k].alive = true;
        self.entries[k].is_dir = is_dir;
        proof {
            let after = old(self)@.with_revived(id, is_dir).nodes;
            assert(self@.nodes =~= after);
            self.lemma_same_shape_wf(*old(self));
        }
    }

    /// What depends on the shape alone survives a change that keeps it.
    pub(crate) proof fn lemma_same_shape_wf(self, before: Index)
        requires
            before.wf(),
            same_shape(before@.nodes, self@.nodes),
            self.children == before.children,
            self.trigrams == before.trigrams,
            self.trigrams_built == before.trigrams_built,
        ensures
            parents_first(self@.nodes),
            kids_ok(self@.nodes, self.children@),
            self.trigrams_built ==> postings_ok(self@.nodes, self.trigrams@),
    {
        let a = before@.nodes;
        let b = self@.nodes;
        assert forall|i: int| 0 <= i < b.len() implies (#[trigger] b[i]).parent == NO_PARENT
            || b[i].parent < i by {
            assert(a[i].parent == b[i].parent);
        }
        assert forall|p: u32| p != NO_PARENT implies #[trigger] kids_of(self.children@, p)
            == child_ids(b, p) by {
            lemma_same_shape_children(a, b, p);
            assert(kids_of(before.children@, p) == child_ids(a, p));
        }
        if self.trigrams_built {
            lemma_same_shape_postings(a, b, self.trigrams@);
        }
    }

    /// The position of the first child of `parent` called `name`, or with
    /// `alive_only` the first that is alive.
    fn lookup(&self, parent: u32, name: &[u8], alive_only: bool) -> (r: Option<u32>)
        requires
            self.wf(),
            parent != NO_PARENT,
        ensures
            r == (if alive_only {
                self@.child(parent, name@)
            } else {
                self@.any_child(parent, name@)
            }),
            r matches Some(k) ==> self@.has(k),
    {
        let ghost nodes = self@.nodes;
        let ghost keep = if alive_only {
            named_alive(nodes, parent, name@)
        } else {
            named(nodes, parent, name@)
        };
        let ghost kids = kids_of(self.children@, parent);
        proof {
            assert(kids == child_ids(nodes, parent));
            lemma_ids_where(child_of(nodes, parent), nodes.len());
        }
        if let Some(list) = self.children.get(&parent) {
            let mut j: usize = 0;
            while j < list.len()
                invariant
                    self.wf(),
                    nodes == self@.nodes,
                    kids == list@,
                    keep == (if alive_only {
                        named_alive(nodes, parent, name@)
                    } else {
                        named(nodes, parent, name@)
                    }),
                    parent != NO_PARENT,
                    ascending(kids),
                    forall|q: int|
                        0 <= q < kids.len() ==> (#[trigger] kids[q]) < nodes.len() && child_of(
                            nodes,
                            parent,
                        )(kids[q] as int),
                    forall|i: int|
                        0 <= i < nodes.len() && #[trigger] child_of(nodes, parent)(i)
                            ==> kids.contains(i as u32),
                    j <= list.len(),
                    forall|q: int| 0 <= q < j ==> !keep(#[trigger] kids[q] as int),
                decreases list.len() - j,
            {
                let k: u32 = list[j];
                assert(kids[j as int] == k);
                let e = &self.entries[k as usize];
                assert(nodes[k as int] == e@);
                if same(e.name.as_slice(), name) && (e.alive || !alive_only) {
                    proof {
                        assert forall|i: int| 0 <= i < k implies !#[trigger] keep(i) by {
                            if keep(i) {
                                assert(child_of(nodes, parent)(i));
                                assert(kids.contains(i as u32));
                                let q = choose|q: int| 0 <= q < kids.len() && kids[q] == i as u32;
                                if q >= j {
                                    if q > j {
                                        assert(kids[j as int] < kids[q]);
                                    }
                                } else {
                                    assert(!keep(kids[q] as int));
                                }
                            }
                        }
                        lemma_first_where(keep, nodes.len(), k as int);
                    }
                    return Some(k);
                }
                j = j + 1;
            }
        }
        proof {
            assert forall|i: int| 0 <= i < nodes.len() implies !#[trigger] keep(i) by {
                if keep(i) {
                    assert(child_of(nodes, parent)(i));
                    assert(kids.contains(i as u32));
                    let q = choose|q: int| 0 <= q < kids.len() && kids[q] == i as u32;
                    assert(!keep(kids[q] as int));
                }
            }
            lemma_first_where_none(keep, nodes.len());
        }
        None
    }

    /// Inserts, or revives the existing entry if this (parent, name) is already
    /// present. Events can legitimately arrive twice: a newly created tree is
    /// walked, and the events for the things inside it arrive afterwards.
    pub fn add(&mut self, parent: u32, name: &[u8], is_dir: bool, ino: u64) -> (id: u32)
        requires
            old(self).wf(),
            old(self)@.parent_ok(parent),
            old(self)@.any_child(parent, name@) is None ==> old(self)@.nodes.len() < NO_PARENT,
        ensures
            final(self).wf(),
            (final(self)@, id) == old(self)@.added(parent, name@, is_dir, ino),
            final(self)@.has(id),
            old(self)@.nodes.len() <= final(self)@.nodes.len() <= old(self)@.nodes.len() + 1,
    {
        if parent != NO_PARENT {
            if let Some(k) = self.lookup(parent, name, false) {
                self.revive(k, is_dir);
                if is_dir {
                    self.dir_ino.insert(ino, k);
                }
                return k;
            }
        }
        self.add_new(parent, name, is_dir, ino)
    }

    /// The living child of `parent` called `name`.
    pub fn find_child(&self, parent: u32, name: &[u8]) -> (r: Option<u32>)
        requires
            self.wf(),
            self@.has(parent),
        ensures
            r == self@.child(parent, name@),
            r matches Some(k) ==> self@.has(k),
    {
        self.lookup(parent, name, true)
    }

    /// The full path of `id`.
    pub fn path_bytes(&self, id: u32) -> (out: Vec<u8>)
        requires
            self.wf(),
            self@.has(id),
        ensures
            out@ == path(self@.nodes, id as int),
    {
        let ghost nodes = self@.nodes;
        let mut chain: Vec<u32> = Vec::new();
        let mut cur: u32 = id;
        while self.entries[cur as usize].parent != NO_PARENT
            invariant
                self.wf(),
                nodes == self@.nodes,
                cur < nodes.len(),
                (if chain@.len() == 0 {
                    cur == id
                } else {
                    chain@[0] == id && cur == nodes[chain@.last() as int].parent
                }),
                forall|j: int|
                    0 <= j < chain@.len() ==> has_parent(nodes, #[trigger] chain@[j] as int),
                forall|j: int|
                    0 < j < chain@.len() ==> #[trigger] chain@[j] == nodes[chain@[j
                        - 1] as int].parent,
            decreases cur,
        {
            assert(nodes[cur as int] == self.entries@[cur as int]@);
            chain.push(cur);
            cur = self.entries[cur as usize].parent;
        }
        assert(nodes[cur as int] == self.entries@[cur as int]@);
        let mut out: Vec<u8> = Vec::new();
        if self.entries[cur as usize].name.len() == 0 {
            out.push(SLASH);
        } else {
            append(&mut out, self.entries[cur as usize].name.as_slice());
        }
        proof {
            assert(out@ =~= path(nodes, cur as int));
        }
        let mut left: usize = chain.len();
        while left > 0
            invariant
                self.wf(),
                nodes == self@.nodes,
                left <= chain@.len(),
                cur < nodes.len(),
                out@ == path(nodes, cur as int),
                (if left == 0 {
                    cur == id
                } else {
                    chain@[0] == id && cur == nodes[chain@[left - 1] as int].parent
                }),
                forall|j: int|
                    0 <= j < chain@.len() ==> has_parent(nodes, #[trigger] chain@[j] as int),
                forall|j: int|
                    0 < j < chain@.len() ==> #[trigger] chain@[j] == nodes[chain@[j
                        - 1] as int].parent,
            decreases left,
        {
            left = left - 1;
            let next = chain[left];
            assert(has_parent(nodes, chain@[left as int] as int));
            assert(nodes[next as int] == self.entries@[next as int]@);
            proof {
                lemma_path_nonempty(nodes, cur as int);
            }
            if out[out.len() - 1] != SLASH {
                out.push(SLASH);
            }
            append(&mut out, self.entries[next as usize].name.as_slice());
            proof {
                let above = path(nodes, cur as int);
                assert(out@ =~= above + separator(above) + nodes[next as int].name);
            }
            cur = next;
        }
        out
    }
}

} // verus!
