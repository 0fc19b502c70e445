//! Replacing what lies under a folder by a fresh listing of it.

use vstd::prelude::*;
use std::collections::HashMap;
use crate::bytes::same;
use crate::digest::{digest, digest_of};
use crate::ids::{ascending, ids_where, lemma_ids_where, lemma_ids_where_agree};
use crate::index::{named, Index, IndexView};
use crate::tree::{has_parent, on_chain, parents_first, Node, NO_PARENT};

verus! {

/// Outcome of grafting a listing into the index.
pub struct GraftStats {
    pub total: usize,
    pub added: usize,
    pub removed: usize,
}

/// A listing in pre-order: each element has the position of an earlier one as
/// its parent, or `NO_PARENT` at the top.
pub open spec fn pre_order(walked: Seq<(u32, Vec<u8>, bool)>) -> bool {
    forall|k: int|
        0 <= k < walked.len() ==> (#[trigger] walked[k]).0 == NO_PARENT || walked[k].0 < k
}

/// A listing in pre-order in which siblings differ in name, as those of a
/// folder do.
pub open spec fn listing_ok(walked: Seq<(u32, Vec<u8>, bool)>) -> bool {
    &&& pre_order(walked)
    &&& forall|p: int, q: int|
        0 <= p < q < walked.len() && (#[trigger] walked[p]).0 == (#[trigger] walked[q]).0
            ==> walked[p].1@ != walked[q].1@
}

impl IndexView {
    /// `i` lies strictly below `m`.
    pub open spec fn below(self, m: u32, i: int) -> bool {
        has_parent(self.nodes, i) && on_chain(self.nodes, m as int, self.nodes[i].parent as int)
    }

    /// Selects what is alive strictly below `m`.
    pub open spec fn alive_below(self, m: u32) -> spec_fn(int) -> bool {
        |i: int| self.below(m, i) && self.nodes[i].alive
    }

    /// The arena with everything strictly below `m` dead.
    pub open spec fn emptied(self, m: u32) -> Seq<Node> {
        Seq::new(
            self.nodes.len(),
            |i: int|
                Node { alive: self.nodes[i].alive && !self.below(m, i), ..self.nodes[i] },
        )
    }

    /// The last child of `p` called `name`, dead or alive.
    pub open spec fn last_child(self, p: u32, name: Seq<u8>) -> Option<u32> {
        let ids = ids_where(named(self.nodes, p, name), self.nodes.len());
        if ids.len() > 0 {
            Some(ids.last())
        } else {
            None
        }
    }

    /// The arena, and the entries that stand for the first `k` elements of the
    /// listing: the one that was there before, revived, or a new one.
    pub open spec fn graft_state(self, m: u32, walked: Seq<(u32, Vec<u8>, bool)>, k: nat) -> (
        Seq<Node>,
        Seq<u32>,
    )
        decreases k,
    {
        if k == 0 {
            (self.emptied(m), seq![])
        } else {
            let (nodes, ids) = self.graft_state(m, walked, (k - 1) as nat);
            let (place, name, is_dir) = walked[k - 1];
            let parent = if place == NO_PARENT {
                m
            } else {
                ids[place as int]
            };
            match self.last_child(parent, name@) {
                Some(x) => (
                    nodes.update(x as int, Node { is_dir, alive: true, ..nodes[x as int] }),
                    ids.push(x),
                ),
                None => (
                    nodes.push(Node { parent, name: name@, is_dir, alive: true }),
                    ids.push(nodes.len() as u32),
                ),
            }
        }
    }

    /// How many of the first `k` elements were alive before.
    pub open spec fn graft_kept(self, m: u32, walked: Seq<(u32, Vec<u8>, bool)>, k: nat) -> nat
        decreases k,
    {
        if k == 0 {
            0
        } else {
            self.graft_kept(m, walked, (k - 1) as nat) + (if self.alive_below(m)(
                self.graft_state(m, walked, k).1.last() as int,
            ) {
                1nat
            } else {
                0
            })
        }
    }

    /// How many entries were alive strictly below `m`.
    pub open spec fn count_below(self, m: u32) -> nat {
        ids_where(self.alive_below(m), self.nodes.len()).len()
    }

    /// The index after `graft`.
    pub open spec fn grafted(self, m: u32, walked: Seq<(u32, Vec<u8>, bool)>) -> IndexView {
        let nodes = self.graft_state(m, walked, walked.len()).0;
        IndexView {
            nodes: nodes.update(m as int, Node { alive: true, ..nodes[m as int] }),
            ..self
        }
    }

    /// Selects what lies strictly below `m` under the digest `h`.
    pub open spec fn in_bucket(self, m: u32, h: u64) -> spec_fn(int) -> bool {
        |i: int|
            self.below(m, i) && digest(self.nodes[i].parent as u64, self.nodes[i].name) == h
    }
}

/// The ids listed under `h`.
pub open spec fn bucket_of(t: Map<u64, Vec<u32>>, h: u64) -> Seq<u32> {
    if t.contains_key(h) {
        t[h]@
    } else {
        seq![]
    }
}

/// What holds of the entries that stand for the first elements of a listing.
#[verifier::opaque]
pub open spec fn placed(
    v: IndexView,
    m: u32,
    walked: Seq<(u32, Vec<u8>, bool)>,
    nodes: Seq<Node>,
    ids: Seq<u32>,
) -> bool {
    &&& ids.len() <= walked.len()
    &&& nodes.len() >= v.nodes.len()
    &&& forall|i: int|
        0 <= i < v.nodes.len() ==> (#[trigger] nodes[i]).parent == v.nodes[i].parent
            && nodes[i].name == v.nodes[i].name
    &&& forall|q: int|
        0 <= q < ids.len() ==> {
            let x = #[trigger] ids[q];
            let parent = if walked[q].0 == NO_PARENT {
                m
            } else {
                ids[walked[q].0 as int]
            };
            &&& m < x < nodes.len()
            &&& nodes[x as int].parent == parent
            &&& nodes[x as int].name == walked[q].1@
            &&& x < v.nodes.len() ==> v.below(m, x as int)
        }
}

/// One id fewer is selected where just one is dropped.
proof fn lemma_one_less(f: spec_fn(int) -> bool, g: spec_fn(int) -> bool, n: nat, x: int)
    requires
        forall|i: int| 0 <= i < n ==> #[trigger] g(i) == (f(i) && i != x),
        0 <= x < n,
        f(x),
    ensures
        ids_where(g, n).len() + 1 == ids_where(f, n).len(),
    decreases n,
{
    let m = (n - 1) as nat;
    assert(g(n - 1) == (f(n - 1) && n - 1 != x));
    if x == m {
        lemma_ids_where_agree(f, g, m);
        assert forall|i: int| 0 <= i < m implies f(i) == #[trigger] g(i) by {}
    } else {
        lemma_one_less(f, g, m, x);
    }
}

/// The last id selected is the one after which none is selected.
pub proof fn lemma_last_where(keep: spec_fn(int) -> bool, n: nat, x: int)
    requires
        n <= NO_PARENT,
        0 <= x < n,
        keep(x),
        forall|i: int| x < i < n ==> !#[trigger] keep(i),
    ensures
        ids_where(keep, n).len() > 0,
        ids_where(keep, n).last() == x as u32,
{
    lemma_ids_where(keep, n);
    let s = ids_where(keep, n);
    assert(s.contains(x as u32));
    let k = choose|k: int| 0 <= k < s.len() && s[k] == x as u32;
    if k < s.len() - 1 {
        assert(s[k] < s[s.len() - 1]);
        assert(keep(s[s.len() - 1] as int));
    }
}

/// Every entry placed so far lies below the mount and keeps its place.
pub proof fn lemma_placed(
    v: IndexView,
    m: u32,
    walked: Seq<(u32, Vec<u8>, bool)>,
    nodes: Seq<Node>,
    ids: Seq<u32>,
)
    requires
        placed(v, m, walked, nodes, ids),
    ensures
        nodes.len() >= v.nodes.len(),
        forall|i: int|
            0 <= i < v.nodes.len() ==> (#[trigger] nodes[i]).parent == v.nodes[i].parent
                && nodes[i].name == v.nodes[i].name,
        forall|q: int|
            0 <= q < ids.len() ==> m < (#[trigger] ids[q]) < nodes.len() && (ids[q] < v.nodes.len()
                ==> v.below(m, ids[q] as int)),
{
    reveal(placed);
}

/// One more entry is placed.
pub proof fn lemma_place(
    v: IndexView,
    m: u32,
    walked: Seq<(u32, Vec<u8>, bool)>,
    nodes: Seq<Node>,
    ids: Seq<u32>,
    more: Seq<Node>,
    x: u32,
)
    requires
        pre_order(walked),
        placed(v, m, walked, nodes, ids),
        ids.len() < walked.len(),
        more.len() >= nodes.len(),
        forall|i: int|
            0 <= i < nodes.len() ==> (#[trigger] more[i]).parent == nodes[i].parent && more[i].name
                == nodes[i].name,
        m < x < more.len(),
        more[x as int].name == walked[ids.len() as int].1@,
        more[x as int].parent == (if walked[ids.len() as int].0 == NO_PARENT {
            m
        } else {
            ids[walked[ids.len() as int].0 as int]
        }),
        x < v.nodes.len() ==> v.below(m, x as int),
    ensures
        placed(v, m, walked, more, ids.push(x)),
{
    reveal(placed);
    let k = ids.len() as int;
    let all = ids.push(x);
    assert forall|q: int| 0 <= q < all.len() implies {
        let y = #[trigger] all[q];
        let up = if walked[q].0 == NO_PARENT {
            m
        } else {
            all[walked[q].0 as int]
        };
        &&& m < y < more.len()
        &&& more[y as int].parent == up
        &&& more[y as int].name == walked[q].1@
        &&& y < v.nodes.len() ==> v.below(m, y as int)
    } by {
        assert(walked[q].0 == NO_PARENT || walked[q].0 < q);
        if walked[q].0 != NO_PARENT {
            assert(all[walked[q].0 as int] == ids[walked[q].0 as int]);
        }
        if q < k {
            assert(all[q] == ids[q]);
            assert(ids[q] < nodes.len());
            assert(more[ids[q] as int].parent == nodes[ids[q] as int].parent);
        }
    }
    assert forall|i: int| 0 <= i < v.nodes.len() implies (#[trigger] more[i]).parent
        == v.nodes[i].parent && more[i].name == v.nodes[i].name by {
        assert(nodes[i].parent == v.nodes[i].parent);
        assert(more[i].parent == nodes[i].parent);
    }
}

/// The ids of earlier elements stay what they are, and the arena only grows.
pub proof fn lemma_graft_grows(
    v: IndexView,
    m: u32,
    walked: Seq<(u32, Vec<u8>, bool)>,
    j: nat,
    k: nat,
)
    requires
        v.nodes.len() <= NO_PARENT,
        j <= k,
    ensures
        v.nodes.len() <= v.graft_state(m, walked, k).0.len(),
        v.graft_state(m, walked, k).1.len() == k,
        v.graft_state(m, walked, j).1 == v.graft_state(m, walked, k).1.take(j as int),
        v.graft_state(m, walked, j).0.len() <= v.graft_state(m, walked, k).0.len(),
    decreases k,
{
    if k > 0 {
        let (place, name, is_dir) = walked[k - 1];
        let ids = v.graft_state(m, walked, (k - 1) as nat).1;
        let parent = if place == NO_PARENT {
            m
        } else {
            ids[place as int]
        };
        lemma_ids_where(named(v.nodes, parent, name@), v.nodes.len());
        let s = ids_where(named(v.nodes, parent, name@), v.nodes.len());
        if s.len() > 0 {
            assert(s[s.len() - 1] < v.nodes.len());
        }
    }
    if k == 0 {
        assert(v.graft_state(m, walked, k).1.take(0) =~= Seq::<u32>::empty());
    } else if j < k {
        lemma_graft_grows(v, m, walked, j, (k - 1) as nat);
        assert(v.graft_state(m, walked, k).1.take(j as int) =~= v.graft_state(
            m,
            walked,
            (k - 1) as nat,
        ).1.take(j as int));
    } else {
        lemma_graft_grows(v, m, walked, (j - 1) as nat, (k - 1) as nat);
        assert(v.graft_state(m, walked, k).1.take(j as int) =~= v.graft_state(m, walked, k).1);
    }
}

/// Selects what was alive below the mount and has not been placed.
pub open spec fn missing(v: IndexView, m: u32, ids: Seq<u32>) -> spec_fn(int) -> bool {
    |i: int| v.alive_below(m)(i) && !ids.contains(i as u32)
}

/// Placing an entry that was alive leaves one fewer missing.
pub proof fn lemma_missing(v: IndexView, m: u32, ids: Seq<u32>, x: u32)
    requires
        v.nodes.len() <= NO_PARENT,
        !ids.contains(x),
    ensures
        ids_where(missing(v, m, ids.push(x)), v.nodes.len()).len() == ids_where(
            missing(v, m, ids),
            v.nodes.len(),
        ).len() - (if x < v.nodes.len() && v.alive_below(m)(x as int) {
            1int
        } else {
            0
        }),
{
    let n = v.nodes.len();
    let f = missing(v, m, ids);
    let g = missing(v, m, ids.push(x));
    assert forall|i: int| 0 <= i < n implies #[trigger] g(i) == (f(i) && i != x) by {
        crate::ids::lemma_push_contains(ids, x, i as u32);
    }
    if x < n && v.alive_below(m)(x as int) {
        lemma_one_less(f, g, n, x as int);
    } else {
        assert forall|i: int| 0 <= i < n implies f(i) == #[trigger] g(i) by {
            assert(g(i) == (f(i) && i != x));
        }
        lemma_ids_where_agree(f, g, n);
    }
}

/// The next element of a listing stands for an entry of its own.
pub proof fn lemma_next_is_new(
    v: IndexView,
    m: u32,
    walked: Seq<(u32, Vec<u8>, bool)>,
    nodes: Seq<Node>,
    ids: Seq<u32>,
    x: u32,
)
    requires
        listing_ok(walked),
        placed(v, m, walked, nodes, ids),
        ids.no_duplicates(),
        ids.len() < walked.len(),
        nodes[x as int].name == walked[ids.len() as int].1@,
        nodes[x as int].parent == (if walked[ids.len() as int].0 == NO_PARENT {
            m
        } else {
            ids[walked[ids.len() as int].0 as int]
        }),
    ensures
        !ids.contains(x),
{
    reveal(placed);
    let k = ids.len() as int;
    if ids.contains(x) {
        let q = choose|q: int| 0 <= q < ids.len() && ids[q] == x;
        let a = walked[q].0;
        let b = walked[k].0;
        assert(nodes[ids[q] as int].name == walked[q].1@);
        assert(walked[q].0 == NO_PARENT || walked[q].0 < q);
        assert(walked[k].0 == NO_PARENT || walked[k].0 < k);
        if a == NO_PARENT && b != NO_PARENT {
            assert(m < ids[b as int]);
        } else if a != NO_PARENT && b == NO_PARENT {
            assert(m < ids[a as int]);
        } else if a != NO_PARENT && b != NO_PARENT {
            assert(ids[a as int] == ids[b as int]);
        }
        assert(walked[q].0 == walked[k].0);
    }
}

impl Index {
    /// The last old child of `parent` called `name`, through the table.
    fn find_last(
        &self,
        table: &HashMap<u64, Vec<u32>>,
        parent: u32,
        name: &[u8],
        Ghost(v): Ghost<IndexView>,
        Ghost(m): Ghost<u32>,
    ) -> (r: Option<u32>)
        requires
            parents_first(v.nodes),
            self@.nodes.len() >= v.nodes.len(),
            forall|i: int|
                0 <= i < v.nodes.len() ==> (#[trigger] self@.nodes[i]).parent == v.nodes[i].parent
                    && self@.nodes[i].name == v.nodes[i].name,
            forall|h: u64| #[trigger]
                bucket_of(table@, h) == ids_where(v.in_bucket(m, h), v.nodes.len()),
            parent != NO_PARENT,
            parent < v.nodes.len() ==> parent == m || v.below(m, parent as int),
        ensures
            r == v.last_child(parent, name@),
            r matches Some(x) ==> x < v.nodes.len() && v.nodes[x as int].parent == parent
                && v.nodes[x as int].name == name@,
    {
        let ghost n = v.nodes.len();
        let ghost keep = named(v.nodes, parent, name@);
        let h = digest_of(parent as u64, name);
        let ghost bucket = bucket_of(table@, h);
        proof {
            lemma_ids_where(v.in_bucket(m, h), n);
            lemma_ids_where(keep, n);
            assert forall|i: int| 0 <= i < n && #[trigger] keep(i) implies bucket.contains(
                i as u32,
            ) by {
                assert(v.nodes[i].parent == parent);
                assert(parent < i);
                assert(v.below(m, i)) by {
                    if parent == m {
                        assert(on_chain(v.nodes, m as int, m as int));
                    }
                }
                assert(v.in_bucket(m, h)(i));
            }
        }
        if let Some(list) = table.get(&h) {
            assert(list@ == bucket);
            let mut j: usize = list.len();
            while j > 0
                invariant
                    n == v.nodes.len(),
                    n <= NO_PARENT,
                    keep == named(v.nodes, parent, name@),
                    list@ == bucket,
                    bucket == ids_where(v.in_bucket(m, h), n),
                    ascending(bucket),
                    self@.nodes.len() >= n,
                    forall|i: int|
                        0 <= i < n ==> (#[trigger] self@.nodes[i]).parent == v.nodes[i].parent
                            && self@.nodes[i].name == v.nodes[i].name,
                    forall|q: int| 0 <= q < bucket.len() ==> #[trigger] bucket[q] < n,
                    forall|i: int| 0 <= i < n && #[trigger] keep(i) ==> bucket.contains(i as u32),
                    j <= list.len(),
                    forall|q: int| j <= q < bucket.len() ==> !keep(#[trigger] bucket[q] as int),
                decreases j,
            {
                j = j - 1;
                let x = list[j];
                assert(bucket[j as int] == x);
                let e = &self.entries[x as usize];
                assert(self@.nodes[x as int] == e@);
                if e.parent == parent && same(e.name.as_slice(), name) {
                    proof {
                        assert forall|i: int| x < i < n implies !#[trigger] keep(i) by {
                            if keep(i) {
                                let q = choose|q: int|
                                    0 <= q < bucket.len() && bucket[q] == i as u32;
                                if q <= j {
                                    if q < j {
                                        assert(bucket[q] < bucket[j as int]);
                                    }
                                } else {
                                    assert(!keep(bucket[q] as int));
                                }
                            }
                        }
                        assert(keep(x as int));
                        lemma_last_where(keep, n, x as int);
                    }
                    return Some(x);
                }
                assert(!keep(x as int));
            }
        }
        proof {
            let s = ids_where(keep, n);
            if s.len() > 0 {
                assert(keep(s[0] as int));
                assert(bucket.contains(s[0]));
                let q = choose|q: int| 0 <= q < bucket.len() && bucket[q] == s[0];
                assert(!keep(bucket[q] as int));
            }
        }
        None
    }

    /// What lies strictly below `mount`, what of it is alive and how much that
    /// is, and a table of all that lies there.
    fn list_below(&self, mount: u32) -> (r: (Vec<bool>, Vec<bool>, usize, HashMap<u64, Vec<u32>>))
        requires
            self.wf(),
            self@.has(mount),
        ensures
            r.0@.len() == self@.nodes.len(),
            forall|i: int| 0 <= i < r.0@.len() ==> #[trigger] r.0@[i] == self@.below(mount, i),
            r.1@.len() == self@.nodes.len(),
            forall|i: int|
                0 <= i < r.1@.len() ==> #[trigger] r.1@[i] == self@.alive_below(mount)(i),
            r.2 == self@.count_below(mount),
            forall|h: u64| #[trigger]
                bucket_of(r.3@, h) == ids_where(self@.in_bucket(mount, h), self@.nodes.len()),
    {
        let ghost v = self@;
        let ghost n = v.nodes.len();
        let mut below: Vec<bool> = Vec::new();
        let mut was: Vec<bool> = Vec::new();
        let mut count: usize = 0;
        let mut table: HashMap<u64, Vec<u32>> = HashMap::new();
        let mut i: usize = 0;
        while i < self.entries.len()
            invariant
                self.wf(),
                v == self@,
                n == v.nodes.len(),
                v.has(mount),
                i <= n,
                below@.len() == i,
                forall|k: int| 0 <= k < i ==> #[trigger] below@[k] == v.below(mount, k),
                was@.len() == i,
                forall|k: int| 0 <= k < i ==> #[trigger] was@[k] == v.alive_below(mount)(k),
                count <= i,
                count == ids_where(v.alive_below(mount), i as nat).len(),
                forall|h: u64| #[trigger]
                    bucket_of(table@, h) == ids_where(v.in_bucket(mount, h), i as nat),
            decreases n - i,
        {
            assert(v.nodes[i as int] == self.entries@[i as int]@);
            let parent = self.entries[i].parent;
            let under = parent != NO_PARENT && (parent == mount || below[parent as usize]);
            proof {
                assert(under == v.below(mount, i as int)) by {
                    if parent != NO_PARENT {
                        assert(v.nodes[i as int].parent < i);
                        assert(below@[parent as int] == v.below(mount, parent as int));
                    }
                }
            }
            let live = self.entries[i].alive;
            below.push(under);
            was.push(under && live);
            let ghost before = table@;
            if under {
                if live {
                    count = count + 1;
                }
                let h = digest_of(parent as u64, self.entries[i].name.as_slice());
                let list = table.entry(h).or_insert(Vec::new());
                list.push(i as u32);
            }
            proof {
                assert forall|g: u64| #[trigger]
                    bucket_of(table@, g) == ids_where(v.in_bucket(mount, g), (i + 1) as nat) by {
                    assert(bucket_of(before, g) == ids_where(v.in_bucket(mount, g), i as nat));
                }
            }
            i = i + 1;
        }
        (below, was, count, table)
    }

    /// Marks everything strictly below `mount` dead.
    fn empty_below(&mut self, mount: u32, below: &Vec<bool>)
        requires
            old(self).wf(),
            below@.len() == old(self)@.nodes.len(),
            forall|i: int|
                0 <= i < below@.len() ==> #[trigger] below@[i] == old(self)@.below(mount, i),
        ensures
            final(self).wf(),
            final(self)@ == (IndexView { nodes: old(self)@.emptied(mount), ..old(self)@ }),
    {
        let ghost v = self@;
        let ghost n = v.nodes.len();
        let mut i: usize = 0;
        while i < self.entries.len()
            invariant
                v == old(self)@,
                n == v.nodes.len(),
                i <= n,
                below@.len() == n,
                forall|k: int| 0 <= k < n ==> #[trigger] below@[k] == v.below(mount, k),
                self@.nodes.len() == n,
                self.dir_ino == old(self).dir_ino,
                self.children == old(self).children,
                self.trigrams == old(self).trigrams,
                self.trigrams_built == old(self).trigrams_built,
                self.root == old(self).root,
                forall|k: int|
                    0 <= k < n ==> #[trigger] self@.nodes[k] == (if k < i {
                        v.emptied(mount)[k]
                    } else {
                        v.nodes[k]
                    }),
            decreases n - i,
        {
            let ghost nodes0 = self@.nodes;
            assert(nodes0[i as int] == v.nodes[i as int]);
            if below[i] {
                self.entries[i].alive = false;
                assert(self@.nodes =~= nodes0.update(
                    i as int,
                    Node { alive: false, ..nodes0[i as int] },
                ));
            }
            i = i + 1;
        }
        proof {
            assert(self@.nodes =~= v.emptied(mount));
            self.lemma_same_shape_wf(*old(self));
        }
    }

    /// Does the arena hold what grafting `walked` at `mount` takes? Entries
    /// that are already there, dead or alive, take no new slot.
    pub fn graft_fits(&self, mount: u32, walked: &[(u32, Vec<u8>, bool)]) -> (r: bool)
        requires
            self.wf(),
            self@.has(mount),
            pre_order(walked@),
        ensures
            r == (self@.graft_state(mount, walked@, walked@.len()).0.len() <= NO_PARENT),
    {
        let ghost v = self@;
        let ghost n = v.nodes.len();
        let ghost list = walked@;
        let (_, _, _, table) = self.list_below(mount);
        let mut ids: Vec<u32> = Vec::new();
        let mut size: usize = self.entries.len();
        proof {
            assert(placed(v, mount, list, v.emptied(mount), ids@)) by {
                reveal(placed);
            }
        }
        let mut k: usize = 0;
        while k < walked.len()
            invariant
                self.wf(),
                v == self@,
                parents_first(v.nodes),
                n == v.nodes.len(),
                list == walked@,
                v.has(mount),
                pre_order(list),
                forall|h: u64| #[trigger]
                    bucket_of(table@, h) == ids_where(v.in_bucket(mount, h), n),
                k <= list.len(),
                size == v.graft_state(mount, list, k as nat).0.len(),
                size <= NO_PARENT,
                ids@ == v.graft_state(mount, list, k as nat).1,
                ids@.len() == k,
                placed(v, mount, list, v.graft_state(mount, list, k as nat).0, ids@),
            decreases list.len() - k,
        {
            let ghost nodes0 = v.graft_state(mount, list, k as nat).0;
            let ghost nodes1 = v.graft_state(mount, list, (k + 1) as nat).0;
            let ghost ids0 = ids@;
            let place = walked[k].0;
            proof {
                lemma_placed(v, mount, list, nodes0, ids0);
                assert(list[k as int].0 == NO_PARENT || list[k as int].0 < k);
            }
            let parent = if place == NO_PARENT {
                mount
            } else {
                ids[place as usize]
            };
            let id = match self.find_last(
                &table,
                parent,
                walked[k].1.as_slice(),
                Ghost(v),
                Ghost(mount),
            ) {
                Some(x) => {
                    proof {
                        assert(nodes0[x as int].parent == v.nodes[x as int].parent);
                        assert(v.nodes[x as int].parent < x);
                        assert(on_chain(v.nodes, mount as int, mount as int));
                    }
                    x
                },
                None => {
                    if size >= NO_PARENT as usize {
                        proof {
                            lemma_graft_grows(v, mount, list, (k + 1) as nat, list.len());
                        }
                        return false;
                    }
                    let x = size as u32;
                    size = size + 1;
                    x
                },
            };
            ids.push(id);
            proof {
                assert(ids@ =~= v.graft_state(mount, list, (k + 1) as nat).1);
                lemma_place(v, mount, list, nodes0, ids0, nodes1, id);
            }
            k = k + 1;
        }
        true
    }

    /// Puts a fresh listing of `mount` in the place of what is below it.
    /// Returns how much was alive there, and how many elements of the listing
    /// were.
    #[verifier::rlimit(40)]
    pub(crate) fn replace_below(&mut self, mount: u32, walked: &[(u32, Vec<u8>, bool)]) -> (r: (
        usize,
        usize,
    ))
        requires
            old(self).wf(),
            old(self)@.has(mount),
            pre_order(walked@),
            old(self)@.graft_state(mount, walked@, walked@.len()).0.len() <= NO_PARENT,
        ensures
            final(self).wf(),
            final(self)@ == old(self)@.grafted(mount, walked@),
            r.0 == old(self)@.count_below(mount),
            r.1 == old(self)@.graft_kept(mount, walked@, walked@.len()),
            r.1 <= walked@.len(),
    {
        let ghost v = self@;
        let ghost n = v.nodes.len();
        let ghost list = walked@;
        let (below, was, was_alive, table) = self.list_below(mount);
        self.empty_below(mount, &below);
        let mut ids: Vec<u32> = Vec::new();
        let mut unchanged: usize = 0;
        proof {
            assert(placed(v, mount, list, self@.nodes, ids@)) by {
                reveal(placed);
            }
        }
        let mut k: usize = 0;
        while k < walked.len()
            invariant
                parents_first(v.nodes),
                n == v.nodes.len(),
                list == walked@,
                v.has(mount),
                pre_order(list),
                v.graft_state(mount, list, list.len()).0.len() <= NO_PARENT,
                was@.len() == n,
                forall|i: int| 0 <= i < n ==> #[trigger] was@[i] == v.alive_below(mount)(i),
                was_alive == v.count_below(mount),
                forall|h: u64| #[trigger]
                    bucket_of(table@, h) == ids_where(v.in_bucket(mount, h), n),
                k <= list.len(),
                self.wf(),
                self@ == (IndexView { nodes: v.graft_state(mount, list, k as nat).0, ..v }),
                ids@ == v.graft_state(mount, list, k as nat).1,
                ids@.len() == k,
                placed(v, mount, list, self@.nodes, ids@),
                unchanged == v.graft_kept(mount, list, k as nat),
                unchanged <= k,
            decreases list.len() - k,
        {
            let ghost nodes0 = self@.nodes;
            let ghost ids0 = ids@;
            let place = walked[k].0;
            let is_dir = walked[k].2;
            proof {
                lemma_placed(v, mount, list, nodes0, ids0);
                assert(list[k as int].0 == NO_PARENT || list[k as int].0 < k);
                lemma_graft_grows(v, mount, list, (k + 1) as nat, list.len());
            }
            let parent = if place == NO_PARENT {
                mount
            } else {
                ids[place as usize]
            };
            let id = match self.find_last(
                &table,
                parent,
                walked[k].1.as_slice(),
                Ghost(v),
                Ghost(mount),
            ) {
                Some(x) => {
                    proof {
                        assert(nodes0[x as int].parent == v.nodes[x as int].parent);
                        assert(v.nodes[x as int].parent < x);
                        assert(on_chain(v.nodes, mount as int, mount as int));
                    }
                    self.revive(x, is_dir);
                    if was[x as usize] {
                        unchanged = unchanged + 1;
                    }
                    x
                },
                None => {
                    let x = self.insert_foreign(parent, walked[k].1.as_slice(), is_dir);
                    proof {
                        assert(!has_parent(v.nodes, x as int));
                    }
                    x
                },
            };
            ids.push(id);
            proof {
                assert(ids@ =~= v.graft_state(mount, list, (k + 1) as nat).1);
                assert(self@.nodes =~= v.graft_state(mount, list, (k + 1) as nat).0);
                lemma_place(v, mount, list, nodes0, ids0, self@.nodes, id);
            }
            k = k + 1;
        }
        proof {
            lemma_placed(v, mount, list, self@.nodes, ids@);
        }
        let at: usize = mount as usize;
        let ghost last = *self;
        self.entries[at].alive = true;
        proof {
            assert(self@.nodes =~= v.grafted(mount, list).nodes);
            self.lemma_same_shape_wf(last);
        }
        (was_alive, unchanged)
    }

    /// Replaces everything under `mount` with a fresh listing of it.
    ///
    /// For filesystems that cannot be watched a periodic walk is the only
    /// source of truth. Entries still present are revived in place rather than
    /// re-created, so that repeated rescans do not grow the arena; vanished
    /// ones stay dead. No inode is registered.
    ///
    /// No more entries may be found again than were alive, as no listing with
    /// distinct siblings does.
    pub fn graft(&mut self, mount: u32, walked: &[(u32, Vec<u8>, bool)]) -> (s: GraftStats)
        requires
            old(self).wf(),
            old(self)@.has(mount),
            pre_order(walked@),
            old(self)@.graft_kept(mount, walked@, walked@.len()) <= old(self)@.count_below(mount),
            old(self)@.graft_state(mount, walked@, walked@.len()).0.len() <= NO_PARENT,
        ensures
            final(self).wf(),
            final(self)@ == old(self)@.grafted(mount, walked@),
            s.total == walked@.len(),
            s.added == walked@.len() - old(self)@.graft_kept(mount, walked@, walked@.len()),
            s.removed == old(self)@.count_below(mount) - old(self)@.graft_kept(
                mount,
                walked@,
                walked@.len(),
            ),
    {
        let (was_alive, kept) = self.replace_below(mount, walked);
        GraftStats { total: walked.len(), added: walked.len() - kept, removed: was_alive - kept }
    }
}

} // verus!
