//! What holds of changing an index.

use vstd::prelude::*;
use crate::graft::{
    lemma_graft_grows, lemma_last_where, lemma_missing, lemma_next_is_new, lemma_place,
    lemma_placed, listing_ok, missing, placed, pre_order, GraftStats,
};
use crate::ids::{ids_where, lemma_ids_where, lemma_ids_where_agree, lemma_ids_where_contains};
use crate::index::{lemma_first_where, named, named_alive, IndexView};
use crate::laws::search_is_exact;
use crate::live::graft_counted;
use crate::options::SearchOpts;
use crate::bytes::{occurs, SLASH};
use crate::tree::{has_parent, on_chain, parents_first, Node, NO_PARENT};

verus! {

pub proof fn lemma_child_exists(v: IndexView, parent: u32, name: Seq<u8>, k: u32)
    requires
        parents_first(v.nodes),
        v.any_child(parent, name) == Some(k),
    ensures
        k < v.nodes.len(),
        v.nodes[k as int].parent == parent,
        v.nodes[k as int].name == name,
{
    let keep = named(v.nodes, parent, name);
    lemma_ids_where(keep, v.nodes.len());
    let s = ids_where(keep, v.nodes.len());
    assert(s[0] == k);
    assert(keep(s[0] as int));
}

/// Adding an entry again changes nothing and gives the same id: events may
/// arrive twice.
pub proof fn adding_twice_adds_once(
    v: IndexView,
    parent: u32,
    name: Seq<u8>,
    is_dir: bool,
    ino: u64,
)
    requires
        parents_first(v.nodes),
        v.nodes.len() < NO_PARENT,
        parent < v.nodes.len(),
    ensures
        ({
            let (w, id) = v.added(parent, name, is_dir, ino);
            w.added(parent, name, is_dir, ino) == (w, id)
        }),
{
    let (w, id) = v.added(parent, name, is_dir, ino);
    let n = v.nodes.len();
    let before = named(v.nodes, parent, name);
    let after = named(w.nodes, parent, name);
    match v.any_child(parent, name) {
        Some(k) => {
            lemma_child_exists(v, parent, name, k);
            assert forall|i: int| 0 <= i < n implies before(i) == #[trigger] after(i) by {}
            lemma_ids_where_agree(before, after, n);
            assert(w.any_child(parent, name) == Some(k));
            assert(w.with_revived(k, is_dir).nodes =~= w.nodes);
            if is_dir {
                assert(w.dir_ino.insert(ino, k) =~= w.dir_ino);
            }
        },
        None => {
            assert forall|i: int| 0 <= i < n implies !#[trigger] after(i) by {
                assert(w.nodes[i] == v.nodes[i]);
                if after(i) {
                    assert(before(i));
                    lemma_ids_where(before, n);
                    assert(ids_where(before, n).contains(i as u32));
                }
            }
            assert(after(n as int));
            lemma_first_where(after, w.nodes.len(), n as int);
            assert(w.with_revived(id, is_dir).nodes =~= w.nodes);
            if is_dir {
                assert(w.dir_ino.insert(ino, id) =~= w.dir_ino);
            }
        },
    }
}

/// What was just added is found by any part of its name, with or without the
/// trigram lists.
pub proof fn added_entry_is_found(
    v: IndexView,
    parent: u32,
    name: Seq<u8>,
    is_dir: bool,
    ino: u64,
    needle: Seq<u8>,
    o: SearchOpts,
)
    requires
        parents_first(v.nodes),
        v.nodes.len() < NO_PARENT,
        parent < v.nodes.len(),
        ({
            let (w, id) = v.added(parent, name, is_dir, ino);
            occurs(w.compared_name(id as int, o.match_case), needle) && w.accepts(id as int, o)
        }),
    ensures
        ({
            let (w, id) = v.added(parent, name, is_dir, ino);
            w.single_ids(needle, false, o).contains(id)
        }),
{
    let (w, id) = v.added(parent, name, is_dir, ino);
    match v.any_child(parent, name) {
        Some(k) => {
            lemma_child_exists(v, parent, name, k);
        },
        None => {},
    }
    lemma_ids_where_contains(w.name_match(needle, o), w.nodes.len(), id);
}

/// Removal leaves an index that searches as exactly as before.
proof fn lemma_removed_searchable(v: IndexView, id: u32)
    requires
        v.searchable(),
    ensures
        v.removed(id).searchable(),
{
    let w = v.removed(id);
    assert forall|i: int| 0 <= i < w.nodes.len() implies (#[trigger] w.nodes[i]).parent
        == v.nodes[i].parent && w.nodes[i].name == v.nodes[i].name by {}
    assert(parents_first(w.nodes)) by {
        assert forall|i: int| 0 <= i < w.nodes.len() implies (#[trigger] w.nodes[i]).parent
            == NO_PARENT || w.nodes[i].parent < i by {
            assert(v.nodes[i].parent == w.nodes[i].parent);
        }
    }
    if w.indexed && w.root != NO_PARENT {
        assert(v.tidy());
        assert forall|i: int| 0 <= i < w.nodes.len() implies ((#[trigger] w.nodes[i]).parent
            == NO_PARENT <==> i == w.root) by {
            assert(v.nodes[i].parent == w.nodes[i].parent);
        }
        assert forall|i: int| 0 <= i < w.nodes.len() && i != w.root implies !(
        #[trigger] w.nodes[i]).name.contains(SLASH) by {
            assert(v.nodes[i].name == w.nodes[i].name);
        }
    }
}

/// Removal is recursive: what lies below the removed entry, through folders
/// that are alive, is found by no search afterwards, and nothing else changes.
pub proof fn removed_entries_are_not_found(
    v: IndexView,
    id: u32,
    pattern: Seq<char>,
    o: SearchOpts,
    d: u32,
)
    requires
        v.searchable(),
        d < v.nodes.len(),
    ensures
        v.doomed(id, d as int) ==> !v.removed(id).found_ids(pattern, o).contains(d),
        !v.doomed(id, d as int) ==> v.removed(id).nodes[d as int] == v.nodes[d as int],
{
    let w = v.removed(id);
    lemma_removed_searchable(v, id);
    search_is_exact(w, pattern, o);
    if v.doomed(id, d as int) {
        assert(!w.nodes[d as int].alive);
        assert(!w.wanted(pattern, o)(d as int));
    }
}

/// The entry that is removed is dead afterwards, and no inode leads to it if it
/// was a living folder.
pub proof fn removal_takes_effect(v: IndexView, id: u32, ino: u64)
    requires
        v.has(id),
    ensures
        !v.removed(id).nodes[id as int].alive,
        v.nodes[id as int].alive && v.nodes[id as int].is_dir && v.removed(
            id,
        ).dir_ino.contains_key(ino) ==> v.removed(id).dir_ino[ino] != id,
{
    assert(v.doomed(id, id as int) == v.nodes[id as int].alive);
}

/// Removing an entry again changes nothing.
pub proof fn removing_twice_removes_once(v: IndexView, id: u32)
    requires
        v.has(id),
        forall|ino: u64|
            v.dir_ino.contains_key(ino) ==> (#[trigger] v.dir_ino[ino]) < v.nodes.len(),
    ensures
        v.removed(id).removed(id) == v.removed(id),
{
    let w = v.removed(id);
    assert(v.doomed(id, id as int) == v.nodes[id as int].alive);
    assert forall|i: int| 0 <= i < w.nodes.len() implies !#[trigger] w.doomed(id, i) by {
        lemma_nothing_left(v, id, i);
    }
    assert(w.removed(id).nodes =~= w.nodes);
    assert(w.removed(id).dir_ino =~= w.dir_ino) by {
        assert forall|ino: u64| w.dir_ino.contains_key(ino) implies !w.doomed(
            id,
            #[trigger] w.dir_ino[ino] as int,
        ) by {
            assert(v.dir_ino[ino] < v.nodes.len());
        }
    }
    assert(w.removed(id) =~= w);
}

proof fn lemma_nothing_left(v: IndexView, id: u32, i: int)
    requires
        v.has(id),
        0 <= i < v.nodes.len(),
        !v.removed(id).nodes[id as int].alive,
    ensures
        !v.removed(id).doomed(id, i),
    decreases i,
{
    let w = v.removed(id);
    if w.doomed(id, i) && i != id {
        lemma_nothing_left(v, id, w.nodes[i].parent as int);
    }
}

// Inodes.

impl IndexView {
    /// Every inode leads to a living folder: none to a file, and none to what
    /// has been removed.
    pub open spec fn inodes_hold(self) -> bool {
        forall|ino: u64| #[trigger]
            self.dir_ino.contains_key(ino) ==> {
                let id = self.dir_ino[ino];
                self.has(id) && self.nodes[id as int].alive && self.nodes[id as int].is_dir
            }
    }
}

/// A new index has no inode that could mislead.
pub proof fn new_indexes_hold_no_inodes(v: IndexView)
    requires
        v.dir_ino == Map::<u64, u32>::empty(),
    ensures
        v.inodes_hold(),
{
}

/// After `add` every inode leads to a living folder, if that was so before and
/// nothing that is known turned from a folder into a file or back.
pub proof fn adding_keeps_inodes(
    v: IndexView,
    parent: u32,
    name: Seq<u8>,
    is_dir: bool,
    ino: u64,
)
    requires
        parents_first(v.nodes),
        v.nodes.len() < NO_PARENT,
        v.inodes_hold(),
        v.any_child(parent, name) matches Some(k) ==> v.nodes[k as int].is_dir == is_dir,
    ensures
        v.added(parent, name, is_dir, ino).0.inodes_hold(),
{
    let w = v.added(parent, name, is_dir, ino).0;
    if let Some(k) = v.any_child(parent, name) {
        lemma_child_exists(v, parent, name, k);
    }
    assert forall|i: u64| #[trigger] w.dir_ino.contains_key(i) implies {
        let id = w.dir_ino[i];
        w.has(id) && w.nodes[id as int].alive && w.nodes[id as int].is_dir
    } by {
        if !(is_dir && i == ino) {
            assert(v.dir_ino.contains_key(i));
        }
    }
}

/// After `add_new` every inode leads to a living folder, if that was so
/// before.
pub proof fn adding_new_keeps_inodes(
    v: IndexView,
    parent: u32,
    name: Seq<u8>,
    is_dir: bool,
    ino: u64,
)
    requires
        v.nodes.len() < NO_PARENT,
        v.inodes_hold(),
    ensures
        v.with_entry(parent, name, is_dir).with_ino(
            is_dir,
            ino,
            v.nodes.len() as u32,
        ).inodes_hold(),
{
    let w = v.with_entry(parent, name, is_dir).with_ino(is_dir, ino, v.nodes.len() as u32);
    assert forall|i: u64| #[trigger] w.dir_ino.contains_key(i) implies {
        let id = w.dir_ino[i];
        w.has(id) && w.nodes[id as int].alive && w.nodes[id as int].is_dir
    } by {
        if !(is_dir && i == ino) {
            assert(v.dir_ino.contains_key(i));
        }
    }
}

/// After `remove` every inode leads to a living folder, if that was so before:
/// the inodes of what is removed go with it.
pub proof fn removing_keeps_inodes(v: IndexView, id: u32)
    requires
        v.inodes_hold(),
    ensures
        v.removed(id).inodes_hold(),
{
    let w = v.removed(id);
    assert forall|i: u64| #[trigger] w.dir_ino.contains_key(i) implies {
        let d = w.dir_ino[i];
        w.has(d) && w.nodes[d as int].alive && w.nodes[d as int].is_dir
    } by {
        assert(v.dir_ino.contains_key(i));
    }
}

// Grafting.

/// `i` lies strictly below `m` in `nodes`.
pub open spec fn under(nodes: Seq<Node>, m: u32, i: int) -> bool {
    has_parent(nodes, i) && on_chain(nodes, m as int, nodes[i].parent as int)
}

/// Chains depend on parents alone.
proof fn lemma_chain_same(a: Seq<Node>, b: Seq<Node>, m: int, d: int)
    requires
        a.len() <= b.len(),
        0 <= d < a.len(),
        forall|i: int| 0 <= i < a.len() ==> (#[trigger] b[i]).parent == a[i].parent,
    ensures
        on_chain(a, m, d) == on_chain(b, m, d),
    decreases d,
{
    assert(b[d].parent == a[d].parent);
    if m != d && has_parent(a, d) {
        lemma_chain_same(a, b, m, a[d].parent as int);
    }
}

proof fn lemma_under_same(a: Seq<Node>, b: Seq<Node>, m: u32, i: int)
    requires
        a.len() <= b.len(),
        0 <= i < a.len(),
        forall|k: int| 0 <= k < a.len() ==> (#[trigger] b[k]).parent == a[k].parent,
    ensures
        under(a, m, i) == under(b, m, i),
{
    assert(b[i].parent == a[i].parent);
    if has_parent(a, i) {
        lemma_chain_same(a, b, m as int, a[i].parent as int);
    }
}

/// What holds after the first `k` elements of a listing are in place: they are
/// exactly what is alive below the mount, and all that is new is among them.
proof fn lemma_graft_state(v: IndexView, m: u32, walked: Seq<(u32, Vec<u8>, bool)>, k: nat)
    requires
        parents_first(v.nodes),
        v.has(m),
        pre_order(walked),
        k <= walked.len(),
        v.graft_state(m, walked, k).0.len() <= NO_PARENT,
    ensures
        ({
            let (nodes, ids) = v.graft_state(m, walked, k);
            &&& ids.len() == k
            &&& parents_first(nodes)
            &&& placed(v, m, walked, nodes, ids)
            &&& listing_ok(walked) ==> ids.no_duplicates()
            &&& forall|i: int|
                0 <= i < nodes.len() && #[trigger] under(nodes, m, i) ==> (nodes[i].alive
                    <==> ids.contains(i as u32))
            &&& forall|i: int|
                0 <= i < nodes.len() && !#[trigger] under(nodes, m, i) ==> i < v.nodes.len()
                    && nodes[i] == v.nodes[i]
            &&& forall|i: int|
                v.nodes.len() <= i < nodes.len() ==> #[trigger] ids.contains(i as u32)
        }),
    decreases k,
{
    let (nodes, ids) = v.graft_state(m, walked, k);
    if k == 0 {
        assert forall|i: int| 0 <= i < nodes.len() implies (#[trigger] nodes[i]).parent
            == v.nodes[i].parent by {}
        assert(parents_first(nodes)) by {
            assert forall|i: int| 0 <= i < nodes.len() implies (#[trigger] nodes[i]).parent
                == NO_PARENT || nodes[i].parent < i by {
                assert(v.nodes[i].parent == nodes[i].parent);
            }
        }
        assert(placed(v, m, walked, nodes, ids)) by {
            reveal(placed);
        }
        assert forall|i: int| 0 <= i < nodes.len() implies #[trigger] under(nodes, m, i)
            == v.below(m, i) by {
            lemma_under_same(v.nodes, nodes, m, i);
        }
    } else {
        let (n0, ids0) = v.graft_state(m, walked, (k - 1) as nat);
        let (place, name, is_dir) = walked[k - 1];
        let parent = if place == NO_PARENT {
            m
        } else {
            ids0[place as int]
        };
        lemma_graft_state(v, m, walked, (k - 1) as nat);
        lemma_placed(v, m, walked, n0, ids0);
        assert(walked[k - 1].0 == NO_PARENT || walked[k - 1].0 < k - 1);
        let x = ids.last();
        assert(ids =~= ids0.push(x));
        match v.last_child(parent, name@) {
            Some(y) => {
                let keep = named(v.nodes, parent, name@);
                lemma_ids_where(keep, v.nodes.len());
                let s = ids_where(keep, v.nodes.len());
                assert(keep(s[s.len() - 1] as int));
                assert(n0[x as int].parent == v.nodes[x as int].parent);
                assert(v.nodes[x as int].parent < x);
                if listing_ok(walked) {
                    lemma_next_is_new(v, m, walked, n0, ids0, x);
                }
                assert(on_chain(v.nodes, m as int, m as int));
                lemma_place(v, m, walked, n0, ids0, nodes, x);
                assert forall|i: int| 0 <= i < nodes.len() implies (#[trigger] nodes[i]).parent
                    == n0[i].parent by {}
                assert forall|i: int| 0 <= i < nodes.len() implies #[trigger] under(nodes, m, i)
                    == under(n0, m, i) by {
                    lemma_under_same(n0, nodes, m, i);
                }
                lemma_under_same(v.nodes, nodes, m, x as int);
                assert(under(nodes, m, x as int));
                assert forall|i: int|
                    0 <= i < nodes.len() && #[trigger] under(nodes, m, i) implies (nodes[i].alive
                    <==> ids.contains(i as u32)) by {
                    crate::ids::lemma_push_contains(ids0, x, i as u32);
                    assert(under(n0, m, i));
                }
                assert forall|i: int| v.nodes.len() <= i < nodes.len() implies #[trigger] ids.contains(
                    i as u32,
                ) by {
                    crate::ids::lemma_push_contains(ids0, x, i as u32);
                    assert(ids0.contains(i as u32));
                }
                assert forall|i: int|
                    0 <= i < nodes.len() && !#[trigger] under(nodes, m, i) implies i
                    < v.nodes.len() && nodes[i] == v.nodes[i] by {
                    assert(!under(n0, m, i));
                }
            },
            None => {
                assert(x == n0.len());
                assert(!ids0.contains(x)) by {
                    if ids0.contains(x) {
                        let q = choose|q: int| 0 <= q < ids0.len() && ids0[q] == x;
                        assert(ids0[q] < n0.len());
                    }
                }
                lemma_place(v, m, walked, n0, ids0, nodes, x);
                assert forall|i: int| 0 <= i < n0.len() implies (#[trigger] nodes[i]) == n0[i] by {}
                assert(parents_first(nodes)) by {
                    assert forall|i: int| 0 <= i < nodes.len() implies (
                    #[trigger] nodes[i]).parent == NO_PARENT || nodes[i].parent < i by {
                        if i < n0.len() {
                            assert(nodes[i] == n0[i]);
                        }
                    }
                }
                assert forall|i: int| 0 <= i < n0.len() implies #[trigger] under(nodes, m, i)
                    == under(n0, m, i) by {
                    lemma_under_same(n0, nodes, m, i);
                }
                assert(under(nodes, m, x as int)) by {
                    assert(nodes[x as int].parent == parent);
                    lemma_chain_same(n0, nodes, m as int, parent as int);
                    if place == NO_PARENT {
                        assert(on_chain(n0, m as int, m as int));
                    } else {
                        lemma_placed_under(v, m, walked, n0, ids0, place as int);
                    }
                }
                assert forall|i: int|
                    0 <= i < nodes.len() && #[trigger] under(nodes, m, i) implies (nodes[i].alive
                    <==> ids.contains(i as u32)) by {
                    crate::ids::lemma_push_contains(ids0, x, i as u32);
                    if i < n0.len() {
                        assert(under(n0, m, i));
                        assert(nodes[i] == n0[i]);
                    }
                }
                assert forall|i: int| v.nodes.len() <= i < nodes.len() implies #[trigger] ids.contains(
                    i as u32,
                ) by {
                    crate::ids::lemma_push_contains(ids0, x, i as u32);
                    if i < n0.len() {
                        assert(ids0.contains(i as u32));
                    }
                }
                assert forall|i: int|
                    0 <= i < nodes.len() && !#[trigger] under(nodes, m, i) implies i
                    < v.nodes.len() && nodes[i] == v.nodes[i] by {
                    if i < n0.len() {
                        assert(!under(n0, m, i));
                        assert(nodes[i] == n0[i]);
                    }
                }
            },
        }
    }
}

/// Each element of a listing adds at most one entry.
pub proof fn lemma_graft_size(v: IndexView, m: u32, walked: Seq<(u32, Vec<u8>, bool)>, k: nat)
    requires
        parents_first(v.nodes),
    ensures
        v.graft_state(m, walked, k).0.len() <= v.nodes.len() + k,
    decreases k,
{
    if k > 0 {
        lemma_graft_size(v, m, walked, (k - 1) as nat);
        lemma_graft_grows(v, m, walked, (k - 1) as nat, (k - 1) as nat);
        let (place, name, is_dir) = walked[k - 1];
        let ids = v.graft_state(m, walked, (k - 1) as nat).1;
        let parent = if place == NO_PARENT {
            m
        } else {
            ids[place as int]
        };
        lemma_ids_where(named(v.nodes, parent, name@), v.nodes.len());
        let s = ids_where(named(v.nodes, parent, name@), v.nodes.len());
        if s.len() > 0 {
            assert(s[s.len() - 1] < v.nodes.len());
        }
    }
}

/// A listing with distinct siblings finds no entry twice, so it finds no more
/// again than were alive.
pub proof fn distinct_listings_can_be_grafted(
    v: IndexView,
    m: u32,
    walked: Seq<(u32, Vec<u8>, bool)>,
)
    requires
        parents_first(v.nodes),
        v.has(m),
        listing_ok(walked),
        v.graft_state(m, walked, walked.len()).0.len() <= NO_PARENT,
    ensures
        v.graft_kept(m, walked, walked.len()) <= v.count_below(m),
{
    lemma_kept(v, m, walked, walked.len());
}

proof fn lemma_kept(v: IndexView, m: u32, walked: Seq<(u32, Vec<u8>, bool)>, k: nat)
    requires
        parents_first(v.nodes),
        v.has(m),
        listing_ok(walked),
        k <= walked.len(),
        v.graft_state(m, walked, k).0.len() <= NO_PARENT,
    ensures
        ids_where(missing(v, m, v.graft_state(m, walked, k).1), v.nodes.len()).len() + v.graft_kept(
            m,
            walked,
            k,
        ) == v.count_below(m),
    decreases k,
{
    let n = v.nodes.len();
    let (nodes, ids) = v.graft_state(m, walked, k);
    if k == 0 {
        assert forall|i: int| 0 <= i < n implies v.alive_below(m)(i) == #[trigger] missing(
            v,
            m,
            ids,
        )(i) by {}
        lemma_ids_where_agree(v.alive_below(m), missing(v, m, ids), n);
    } else {
        lemma_graft_grows(v, m, walked, (k - 1) as nat, k);
        let ids0 = v.graft_state(m, walked, (k - 1) as nat).1;
        lemma_kept(v, m, walked, (k - 1) as nat);
        lemma_graft_state(v, m, walked, k);
        let x = ids.last();
        assert(ids =~= ids0.push(x));
        assert(!ids0.contains(x)) by {
            if ids0.contains(x) {
                let q = choose|q: int| 0 <= q < ids0.len() && ids0[q] == x;
                assert(ids[q] == ids[k - 1]);
            }
        }
        lemma_missing(v, m, ids0, x);
    }
}

/// Every entry placed hangs below the mount.
proof fn lemma_placed_under(
    v: IndexView,
    m: u32,
    walked: Seq<(u32, Vec<u8>, bool)>,
    nodes: Seq<Node>,
    ids: Seq<u32>,
    q: int,
)
    requires
        v.has(m),
        pre_order(walked),
        parents_first(nodes),
        placed(v, m, walked, nodes, ids),
        0 <= q < ids.len(),
    ensures
        under(nodes, m, ids[q] as int),
        on_chain(nodes, m as int, ids[q] as int),
    decreases q,
{
    reveal(placed);
    let x = ids[q] as int;
    assert(walked[q].0 == NO_PARENT || walked[q].0 < q);
    assert(nodes[x].parent == NO_PARENT || nodes[x].parent < x);
    if walked[q].0 == NO_PARENT {
        assert(on_chain(nodes, m as int, m as int));
    } else {
        let p = walked[q].0 as int;
        assert(ids[p] < nodes.len());
        lemma_placed_under(v, m, walked, nodes, ids, p);
    }
}

/// After grafting a listing, what is alive strictly below the mount is exactly
/// what is listed; the mount is alive, and everything else is as it was.
pub proof fn graft_replaces_what_is_below(
    v: IndexView,
    m: u32,
    walked: Seq<(u32, Vec<u8>, bool)>,
    i: int,
)
    requires
        parents_first(v.nodes),
        v.has(m),
        pre_order(walked),
        v.graft_state(m, walked, walked.len()).0.len() <= NO_PARENT,
        0 <= i < v.grafted(m, walked).nodes.len(),
    ensures
        v.grafted(m, walked).below(m, i) ==> (v.grafted(m, walked).nodes[i].alive
            <==> v.graft_state(m, walked, walked.len()).1.contains(i as u32)),
        !v.grafted(m, walked).below(m, i) && i != m ==> i < v.nodes.len() && v.grafted(
            m,
            walked,
        ).nodes[i] == v.nodes[i],
        v.grafted(m, walked).nodes[m as int].alive,
        v.grafted(m, walked).dir_ino == v.dir_ino,
{
    let (nodes, ids) = v.graft_state(m, walked, walked.len());
    let w = v.grafted(m, walked);
    lemma_graft_state(v, m, walked, walked.len());
    lemma_placed(v, m, walked, nodes, ids);
    assert forall|k: int| 0 <= k < nodes.len() implies (#[trigger] w.nodes[k]).parent
        == nodes[k].parent by {}
    lemma_under_same(nodes, w.nodes, m, i);
    assert(w.below(m, i) == under(nodes, m, i));
    if i == m && w.below(m, i) {
        crate::tree::lemma_chain_order(w.nodes, m as int, w.nodes[i].parent as int);
    }
}

/// Grafting the same listing again creates nothing: every element stands for
/// the entry it stood for before.
pub proof fn regrafting_grows_nothing(
    v: IndexView,
    m: u32,
    walked: Seq<(u32, Vec<u8>, bool)>,
    k: nat,
)
    requires
        parents_first(v.nodes),
        v.has(m),
        listing_ok(walked),
        v.graft_state(m, walked, walked.len()).0.len() <= NO_PARENT,
        k <= walked.len(),
    ensures
        v.grafted(m, walked).graft_state(m, walked, k).1 == v.graft_state(
            m,
            walked,
            walked.len(),
        ).1.take(k as int),
        v.grafted(m, walked).graft_state(m, walked, k).0.len() == v.grafted(m, walked).nodes.len(),
    decreases k,
{
    let (nodes, ids) = v.graft_state(m, walked, walked.len());
    let w = v.grafted(m, walked);
    lemma_graft_state(v, m, walked, walked.len());
    if k > 0 {
        let j = k - 1;
        regrafting_grows_nothing(v, m, walked, j as nat);
        let (place, name, is_dir) = walked[j];
        let ids2 = w.graft_state(m, walked, j as nat).1;
        assert(walked[j].0 == NO_PARENT || walked[j].0 < j);
        let parent = if place == NO_PARENT {
            m
        } else {
            ids[place as int]
        };
        if place != NO_PARENT {
            assert(ids2[place as int] == ids[place as int]);
        }
        let x = ids[j];
        lemma_placed(v, m, walked, nodes, ids);
        assert(nodes[x as int].parent == parent && nodes[x as int].name == name@) by {
            reveal(placed);
            assert(ids[j] == x);
        }
        let keep = named(w.nodes, parent, name@);
        assert(w.nodes[x as int].parent == nodes[x as int].parent);
        assert(keep(x as int));
        assert forall|i: int| x < i < w.nodes.len() implies !#[trigger] keep(i) by {
            if keep(i) {
                assert(w.nodes[i].parent == nodes[i].parent && w.nodes[i].name == nodes[i].name);
                lemma_no_later_sibling(v, m, walked, j, i);
            }
        }
        lemma_last_where(keep, w.nodes.len(), x as int);
        assert(w.last_child(parent, name@) == Some(x));
        assert(ids.take(k as int) =~= ids.take(j).push(x));
    } else {
        assert(ids.take(0) =~= Seq::<u32>::empty());
    }
}

/// What was listed as a folder is one, and what was not is not.
proof fn lemma_graft_kinds(v: IndexView, m: u32, walked: Seq<(u32, Vec<u8>, bool)>, k: nat)
    requires
        parents_first(v.nodes),
        v.has(m),
        listing_ok(walked),
        k <= walked.len(),
        v.graft_state(m, walked, k).0.len() <= NO_PARENT,
    ensures
        forall|q: int|
            0 <= q < k ==> v.graft_state(m, walked, k).0[(#[trigger] v.graft_state(
                m,
                walked,
                k,
            ).1[q]) as int].is_dir == walked[q].2,
    decreases k,
{
    if k > 0 {
        lemma_graft_grows(v, m, walked, (k - 1) as nat, k);
        lemma_graft_kinds(v, m, walked, (k - 1) as nat);
        lemma_graft_state(v, m, walked, (k - 1) as nat);
        lemma_graft_state(v, m, walked, k);
        let (n0, ids0) = v.graft_state(m, walked, (k - 1) as nat);
        let (nodes, ids) = v.graft_state(m, walked, k);
        lemma_placed(v, m, walked, n0, ids0);
        lemma_placed(v, m, walked, nodes, ids);
        let x = ids[k - 1];
        assert(x < nodes.len());
        let (place, name, is_dir) = walked[k - 1];
        let parent = if place == NO_PARENT {
            m
        } else {
            ids0[place as int]
        };
        match v.last_child(parent, name@) {
            Some(y) => {
                assert(nodes == n0.update(
                    y as int,
                    Node { is_dir, alive: true, ..n0[y as int] },
                ));
                assert(ids == ids0.push(y));
                assert(y == x);
                lemma_ids_where(named(v.nodes, parent, name@), v.nodes.len());
                let s = ids_where(named(v.nodes, parent, name@), v.nodes.len());
                assert(s[s.len() - 1] < v.nodes.len());
            },
            None => {
                assert(nodes == n0.push(Node { parent, name: name@, is_dir, alive: true }));
                assert(ids == ids0.push(n0.len() as u32));
                assert(x == n0.len());
            },
        }
        assert(nodes[x as int].is_dir == walked[k - 1].2);
        assert forall|q: int| 0 <= q < k implies nodes[(#[trigger] ids[q]) as int].is_dir
            == walked[q].2 by {
            if q < k - 1 {
                assert(ids0[q] < n0.len());
                assert(nodes[ids0[q] as int] == n0[ids0[q] as int]);
                assert(ids0[q] == ids[q]);
                assert(ids[q] != ids[k - 1]);
                assert(n0[ids0[q] as int].is_dir == walked[q].2);
            }
        }
    }
}

/// While a listing is grafted again, what has had its turn is as it was, and
/// the rest below the mount waits, dead.
proof fn lemma_regraft(v: IndexView, m: u32, walked: Seq<(u32, Vec<u8>, bool)>, k: nat)
    requires
        parents_first(v.nodes),
        v.has(m),
        listing_ok(walked),
        v.graft_state(m, walked, walked.len()).0.len() <= NO_PARENT,
        k <= walked.len(),
    ensures
        ({
            let w = v.grafted(m, walked);
            let ids = v.graft_state(m, walked, walked.len()).1;
            let again = w.graft_state(m, walked, k).0;
            &&& again.len() == w.nodes.len()
            &&& forall|i: int|
                0 <= i < again.len() ==> #[trigger] again[i] == (Node {
                    alive: w.nodes[i].alive && (!w.below(m, i) || ids.take(k as int).contains(
                        i as u32,
                    )),
                    ..w.nodes[i]
                })
            &&& w.graft_kept(m, walked, k) == k
        }),
    decreases k,
{
    let w = v.grafted(m, walked);
    let (nodes, ids) = v.graft_state(m, walked, walked.len());
    regrafting_grows_nothing(v, m, walked, k);
    if k > 0 {
        let j = k - 1;
        lemma_regraft(v, m, walked, j as nat);
        regrafting_grows_nothing(v, m, walked, j as nat);
        lemma_graft_kinds(v, m, walked, walked.len());
        lemma_graft_state(v, m, walked, walked.len());
        lemma_placed(v, m, walked, nodes, ids);
        let x = ids[j];
        let before = w.graft_state(m, walked, j as nat).0;
        let again = w.graft_state(m, walked, k).0;
        assert(ids.take(k as int) =~= ids.take(j).push(x));
        assert(w.graft_state(m, walked, k).1.last() == x);
        graft_replaces_what_is_below(v, m, walked, x as int);
        lemma_placed_under(v, m, walked, nodes, ids, j);
        assert forall|i: int| 0 <= i < nodes.len() implies (#[trigger] w.nodes[i]).parent
            == nodes[i].parent by {}
        lemma_under_same(nodes, w.nodes, m, x as int);
        assert(w.below(m, x as int));
        assert(ids.contains(x));
        assert(w.nodes[x as int].is_dir == walked[j].2);
        assert(again =~= before.update(
            x as int,
            Node { is_dir: walked[j].2, alive: true, ..before[x as int] },
        ));
        assert forall|i: int| 0 <= i < again.len() implies #[trigger] again[i] == (Node {
            alive: w.nodes[i].alive && (!w.below(m, i) || ids.take(k as int).contains(i as u32)),
            ..w.nodes[i]
        }) by {
            crate::ids::lemma_push_contains(ids.take(j), x, i as u32);
            assert(before[i] == (Node {
                alive: w.nodes[i].alive && (!w.below(m, i) || ids.take(j).contains(i as u32)),
                ..w.nodes[i]
            }));
        }
        assert(w.alive_below(m)(x as int));
    } else {
        let again = w.graft_state(m, walked, 0).0;
        assert forall|i: int| 0 <= i < again.len() implies #[trigger] again[i] == (Node {
            alive: w.nodes[i].alive && (!w.below(m, i) || ids.take(0).contains(i as u32)),
            ..w.nodes[i]
        }) by {
            assert(ids.take(0).len() == 0);
        }
    }
}

/// Grafting the same listing again changes nothing: every element is found
/// alive, so none is added and none removed, and each entry stays as it is.
pub proof fn regrafting_changes_nothing(v: IndexView, m: u32, walked: Seq<(u32, Vec<u8>, bool)>)
    requires
        parents_first(v.nodes),
        v.has(m),
        listing_ok(walked),
        v.graft_state(m, walked, walked.len()).0.len() <= NO_PARENT,
    ensures
        ({
            let w = v.grafted(m, walked);
            &&& w.grafted(m, walked) == w
            &&& w.graft_state(m, walked, walked.len()).0.len() == w.nodes.len()
            &&& w.graft_kept(m, walked, walked.len()) == walked.len()
            &&& w.count_below(m) == walked.len()
        }),
{
    let w = v.grafted(m, walked);
    let (nodes, ids) = v.graft_state(m, walked, walked.len());
    lemma_regraft(v, m, walked, walked.len());
    regrafting_grows_nothing(v, m, walked, walked.len());
    lemma_graft_state(v, m, walked, walked.len());
    lemma_placed(v, m, walked, nodes, ids);
    assert(ids.take(walked.len() as int) =~= ids);
    assert forall|i: int| 0 <= i < w.nodes.len() && w.below(m, i) && (
    #[trigger] w.nodes[i]).alive implies ids.contains(i as u32) by {
        graft_replaces_what_is_below(v, m, walked, i);
    }
    graft_replaces_what_is_below(v, m, walked, m as int);
    assert(w.grafted(m, walked).nodes =~= w.nodes);
    assert(w.grafted(m, walked) =~= w);
    assert(parents_first(w.nodes)) by {
        assert forall|i: int| 0 <= i < w.nodes.len() implies (#[trigger] w.nodes[i]).parent
            == NO_PARENT || w.nodes[i].parent < i by {
            assert(nodes[i].parent == NO_PARENT || nodes[i].parent < i);
        }
    }
    lemma_kept(w, m, walked, walked.len());
    let gone = missing(w, m, ids);
    lemma_ids_where(gone, w.nodes.len());
    let s = ids_where(gone, w.nodes.len());
    if s.len() > 0 {
        assert(gone(s[0] as int));
    }
}

/// After a graft, no later entry has the parent and name of a listed one.
proof fn lemma_no_later_sibling(
    v: IndexView,
    m: u32,
    walked: Seq<(u32, Vec<u8>, bool)>,
    j: int,
    i: int,
)
    requires
        parents_first(v.nodes),
        v.has(m),
        listing_ok(walked),
        v.graft_state(m, walked, walked.len()).0.len() <= NO_PARENT,
        0 <= j < walked.len(),
        v.graft_state(m, walked, walked.len()).1[j] < i < v.graft_state(
            m,
            walked,
            walked.len(),
        ).0.len(),
    ensures
        ({
            let (nodes, ids) = v.graft_state(m, walked, walked.len());
            nodes[i].parent != nodes[ids[j] as int].parent || nodes[i].name
                != nodes[ids[j] as int].name
        }),
{
    let (nodes, ids) = v.graft_state(m, walked, walked.len());
    let x = ids[j];
    lemma_graft_state(v, m, walked, walked.len());
    lemma_placed(v, m, walked, nodes, ids);
    if nodes[i].parent != nodes[x as int].parent || nodes[i].name != nodes[x as int].name {
        // Nothing to show.
    } else if i >= v.nodes.len() {
        assert(ids.contains(i as u32));
        let q = choose|q: int| 0 <= q < ids.len() && ids[q] == i as u32;
        reveal(placed);
        assert(nodes[ids[q] as int].name == walked[q].1@);
        assert(nodes[ids[j] as int].name == walked[j].1@);
        let a = walked[q].0;
        let b = walked[j].0;
        assert(walked[q].0 == NO_PARENT || walked[q].0 < q);
        assert(walked[j].0 == NO_PARENT || walked[j].0 < j);
        if a == NO_PARENT && b != NO_PARENT {
            assert(m < ids[b as int]);
        } else if a != NO_PARENT && b == NO_PARENT {
            assert(m < ids[a as int]);
        } else if a != NO_PARENT && b != NO_PARENT {
            assert(ids[a as int] == ids[b as int]);
        }
        assert(walked[q].0 == walked[j].0);
    } else {
        // Both were there before: `x` was the last of them.
        lemma_graft_grows(v, m, walked, (j + 1) as nat, walked.len());
        lemma_graft_grows(v, m, walked, j as nat, walked.len());
        let (n1, ids1) = v.graft_state(m, walked, j as nat);
        let (n2, ids2) = v.graft_state(m, walked, (j + 1) as nat);
        assert(ids2[j] == x);
        lemma_graft_state(v, m, walked, j as nat);
        lemma_placed(v, m, walked, n1, ids1);
        let parent = if walked[j].0 == NO_PARENT {
            m
        } else {
            ids1[walked[j].0 as int]
        };
        let keep = named(v.nodes, parent, walked[j].1@);
        assert(nodes[x as int].parent == parent && nodes[x as int].name == walked[j].1@) by {
            reveal(placed);
            assert(walked[j].0 == NO_PARENT || walked[j].0 < j);
            assert(ids[j] == x);
            if walked[j].0 != NO_PARENT {
                assert(ids1[walked[j].0 as int] == ids[walked[j].0 as int]);
            }
        }
        assert(nodes[i].parent == v.nodes[i].parent && nodes[i].name == v.nodes[i].name);
        assert(keep(i));
        lemma_ids_where(keep, v.nodes.len());
        let s = ids_where(keep, v.nodes.len());
        assert(s.contains(i as u32));
        let k = choose|k: int| 0 <= k < s.len() && s[k] == i as u32;
        assert(v.last_child(parent, walked[j].1@) == Some(s.last()));
        assert(x == s.last());
        if k < s.len() - 1 {
            assert(s[k] < s[s.len() - 1]);
        }
    }
}

// What each change comes to, entry by entry.

/// The child of a folder by name is the first living entry with that parent and
/// that name; there is none exactly if no living entry has both.
pub proof fn children_are_found_by_name(v: IndexView, parent: u32, name: Seq<u8>, k: u32)
    requires
        parents_first(v.nodes),
    ensures
        v.child(parent, name) == Some(k) <==> {
            &&& k < v.nodes.len()
            &&& v.nodes[k as int].alive
            &&& v.nodes[k as int].parent == parent
            &&& v.nodes[k as int].name == name
            &&& forall|i: int|
                0 <= i < k ==> !((#[trigger] v.nodes[i]).alive && v.nodes[i].parent == parent
                    && v.nodes[i].name == name)
        },
        v.child(parent, name) is None <==> forall|i: int|
            0 <= i < v.nodes.len() ==> !((#[trigger] v.nodes[i]).alive && v.nodes[i].parent
                == parent && v.nodes[i].name == name),
{
    let keep = named_alive(v.nodes, parent, name);
    let n = v.nodes.len();
    lemma_ids_where(keep, n);
    let s = ids_where(keep, n);
    if s.len() > 0 {
        let x = s[0];
        assert(keep(x as int));
        assert forall|i: int| 0 <= i < x implies !((#[trigger] v.nodes[i]).alive
            && v.nodes[i].parent == parent && v.nodes[i].name == name) by {
            if keep(i) {
                assert(s.contains(i as u32));
                let q = choose|q: int| 0 <= q < s.len() && s[q] == i as u32;
                if q > 0 {
                    assert(s[0] < s[q]);
                }
            }
        }
        assert(v.nodes[x as int].alive);
        if k < n && v.nodes[k as int].alive && v.nodes[k as int].parent == parent
            && v.nodes[k as int].name == name && k > x {
            assert(v.nodes[x as int].parent == parent);
        }
    } else {
        assert forall|i: int| 0 <= i < n implies !((#[trigger] v.nodes[i]).alive
            && v.nodes[i].parent == parent && v.nodes[i].name == name) by {
            if keep(i) {
                assert(s.contains(i as u32));
            }
        }
    }
}

/// `add` leaves one living entry of that name, kind and folder, and touches no
/// other entry. It takes a new slot only where no entry of that name, dead or
/// alive, was in the folder. A folder is known by its inode from now on; no
/// other inode changes.
pub proof fn adding_changes_one_entry(
    v: IndexView,
    parent: u32,
    name: Seq<u8>,
    is_dir: bool,
    ino: u64,
)
    requires
        parents_first(v.nodes),
        v.nodes.len() < NO_PARENT,
    ensures
        ({
            let (w, id) = v.added(parent, name, is_dir, ino);
            &&& id < w.nodes.len()
            &&& w.nodes[id as int] == (Node { parent, name, is_dir, alive: true })
            &&& forall|i: int|
                0 <= i < v.nodes.len() && i != id ==> #[trigger] w.nodes[i] == v.nodes[i]
            &&& w.nodes.len() == v.nodes.len() + (if parent != NO_PARENT && exists|i: int|
                0 <= i < v.nodes.len() && (#[trigger] v.nodes[i]).parent == parent
                    && v.nodes[i].name == name {
                0int
            } else {
                1
            })
            &&& id >= v.nodes.len() || (v.nodes[id as int].parent == parent
                && v.nodes[id as int].name == name)
            &&& w.root == v.root
            &&& w.dir_ino == (if is_dir {
                v.dir_ino.insert(ino, id)
            } else {
                v.dir_ino
            })
        }),
{
    let (w, id) = v.added(parent, name, is_dir, ino);
    let n = v.nodes.len();
    match v.any_child(parent, name) {
        Some(k) => {
            lemma_child_exists(v, parent, name, k);
            assert(w.nodes[k as int] =~= Node { parent, name, is_dir, alive: true });
            assert(v.nodes[k as int].parent == parent);
        },
        None => {
            if parent != NO_PARENT {
                let keep = named(v.nodes, parent, name);
                lemma_ids_where(keep, n);
                assert forall|i: int| 0 <= i < n implies !((#[trigger] v.nodes[i]).parent == parent
                    && v.nodes[i].name == name) by {
                    if keep(i) {
                        assert(ids_where(keep, n).contains(i as u32));
                    }
                }
            }
        },
    }
}

/// `i` is `id` or lies below it, and it and all from it up to `id` are alive,
/// those above it being folders.
pub open spec fn living_below(nodes: Seq<Node>, id: u32, i: int) -> bool
    decreases i,
{
    &&& nodes[i].alive
    &&& i == id || (has_parent(nodes, i) && nodes[nodes[i].parent as int].is_dir && living_below(
        nodes,
        id,
        nodes[i].parent as int,
    ))
}

/// `remove` kills the entry and all that lives below it, and nothing else
/// changes: no name, no parent, no kind, and no entry elsewhere. The inodes of
/// the folders that die are forgotten, and no others.
pub proof fn removing_takes_the_subtree(v: IndexView, id: u32, i: int, ino: u64)
    requires
        v.has(id),
        0 <= i < v.nodes.len(),
    ensures
        ({
            let w = v.removed(id);
            &&& w.nodes.len() == v.nodes.len()
            &&& w.root == v.root
            &&& living_below(v.nodes, id, i) ==> w.nodes[i] == (Node {
                alive: false,
                ..v.nodes[i]
            })
            &&& !living_below(v.nodes, id, i) ==> w.nodes[i] == v.nodes[i]
            &&& !on_chain(v.nodes, id as int, i) ==> w.nodes[i] == v.nodes[i]
            &&& v.dir_ino.contains_key(ino) && v.has(v.dir_ino[ino]) ==> {
                let d = v.dir_ino[ino] as int;
                if v.nodes[d].is_dir && living_below(v.nodes, id, d) {
                    !w.dir_ino.contains_key(ino)
                } else {
                    w.dir_ino.contains_key(ino) && w.dir_ino[ino] == d
                }
            }
            &&& !v.dir_ino.contains_key(ino) ==> !w.dir_ino.contains_key(ino)
        }),
{
    lemma_doomed_is_below(v, id, i);
    if v.dir_ino.contains_key(ino) && v.has(v.dir_ino[ino]) {
        lemma_doomed_is_below(v, id, v.dir_ino[ino] as int);
    }
}

proof fn lemma_doomed_is_below(v: IndexView, id: u32, i: int)
    ensures
        v.doomed(id, i) == living_below(v.nodes, id, i),
        v.doomed(id, i) ==> on_chain(v.nodes, id as int, i),
    decreases i,
{
    if i != id && has_parent(v.nodes, i) {
        lemma_doomed_is_below(v, id, v.nodes[i].parent as int);
    }
}

/// After removing the one living entry of its name in a folder, the folder has
/// no living entry of that name.
pub proof fn removed_names_are_free(v: IndexView, id: u32)
    requires
        parents_first(v.nodes),
        v.has(id),
        v.nodes[id as int].alive,
        forall|i: int|
            0 <= i < v.nodes.len() && i != id && (#[trigger] v.nodes[i]).parent
                == v.nodes[id as int].parent && v.nodes[i].name == v.nodes[id as int].name
                ==> !v.nodes[i].alive,
    ensures
        v.removed(id).child(v.nodes[id as int].parent, v.nodes[id as int].name) is None,
{
    let w = v.removed(id);
    let parent = v.nodes[id as int].parent;
    let name = v.nodes[id as int].name;
    removing_takes_the_subtree(v, id, id as int, 0);
    assert(parents_first(w.nodes)) by {
        assert forall|i: int| 0 <= i < w.nodes.len() implies (#[trigger] w.nodes[i]).parent
            == NO_PARENT || w.nodes[i].parent < i by {
            assert(v.nodes[i].parent == w.nodes[i].parent);
        }
    }
    children_are_found_by_name(w, parent, name, 0);
    assert forall|i: int| 0 <= i < w.nodes.len() implies !((#[trigger] w.nodes[i]).alive
        && w.nodes[i].parent == parent && w.nodes[i].name == name) by {
        assert(v.nodes[i].parent == w.nodes[i].parent);
    }
}

// Listings, element by element.

/// A listing names nothing before the folder that holds it, and no two elements
/// of one folder alike.
pub open spec fn orderly(walked: Seq<(u32, Vec<u8>, bool)>) -> bool {
    &&& forall|k: int|
        0 <= k < walked.len() ==> (#[trigger] walked[k]).0 == 0xffff_ffff || walked[k].0 < k
    &&& forall|p: int, q: int|
        0 <= p < q < walked.len() && (#[trigger] walked[p]).0 == (#[trigger] walked[q]).0
            ==> walked[p].1@ != walked[q].1@
}

/// After grafting, each element of the listing has a living entry of its name
/// and its kind, in the folder that the listing puts it in; and nothing else is
/// alive below the mount.
pub proof fn listings_are_taken_in_element_by_element(
    v: IndexView,
    m: u32,
    walked: Seq<(u32, Vec<u8>, bool)>,
) -> (ids: Seq<u32>)
    requires
        parents_first(v.nodes),
        v.has(m),
        orderly(walked),
        v.graft_state(m, walked, walked.len()).0.len() <= NO_PARENT,
    ensures
        ids.len() == walked.len(),
        ids.no_duplicates(),
        forall|q: int|
            0 <= q < ids.len() ==> {
                let nodes = v.grafted(m, walked).nodes;
                let x = (#[trigger] ids[q]) as int;
                &&& x < nodes.len() && x != m
                &&& nodes[x].alive
                &&& nodes[x].name == walked[q].1@
                &&& nodes[x].is_dir == walked[q].2
                &&& nodes[x].parent == (if walked[q].0 == 0xffff_ffff {
                    m
                } else {
                    ids[walked[q].0 as int]
                })
            },
        forall|i: int|
            0 <= i < v.grafted(m, walked).nodes.len() && #[trigger] v.grafted(m, walked).below(m, i)
                && v.grafted(m, walked).nodes[i].alive ==> ids.contains(i as u32),
{
    let (nodes, ids) = v.graft_state(m, walked, walked.len());
    let w = v.grafted(m, walked);
    lemma_graft_state(v, m, walked, walked.len());
    lemma_graft_kinds(v, m, walked, walked.len());
    lemma_placed(v, m, walked, nodes, ids);
    assert forall|i: int|
        0 <= i < w.nodes.len() && #[trigger] w.below(m, i) && w.nodes[i].alive implies ids.contains(
        i as u32,
    ) by {
        graft_replaces_what_is_below(v, m, walked, i);
    }
    assert forall|q: int| 0 <= q < ids.len() implies {
        let x = (#[trigger] ids[q]) as int;
        &&& x < w.nodes.len() && x != m
        &&& w.nodes[x].alive
        &&& w.nodes[x].name == walked[q].1@
        &&& w.nodes[x].is_dir == walked[q].2
        &&& w.nodes[x].parent == (if walked[q].0 == 0xffff_ffff {
            m
        } else {
            ids[walked[q].0 as int]
        })
    } by {
        reveal(placed);
        lemma_placed_under(v, m, walked, nodes, ids, q);
        let x = ids[q] as int;
        assert(under(nodes, m, x));
        assert(ids.contains(x as u32));
    }
    ids
}

/// The figures of a graft add up: as many elements as the listing has, those
/// that are new, and those that are gone.
pub proof fn graft_figures_add_up(
    v: IndexView,
    m: u32,
    walked: Seq<(u32, Vec<u8>, bool)>,
    s: GraftStats,
)
    requires
        parents_first(v.nodes),
        v.has(m),
        orderly(walked),
        v.graft_state(m, walked, walked.len()).0.len() <= NO_PARENT,
        graft_counted(v, m, walked, s),
    ensures
        s.total == walked.len(),
        s.total + s.removed == v.count_below(m) + s.added,
        v.count_below(m) == 0 ==> s.added == walked.len() && s.removed == 0,
        walked.len() == 0 ==> s.added == 0 && s.removed == v.count_below(m),
        s.added <= s.total,
        s.removed <= v.count_below(m),
{
    distinct_listings_can_be_grafted(v, m, walked);
    lemma_kept_few(v, m, walked, walked.len());
}

proof fn lemma_kept_few(v: IndexView, m: u32, walked: Seq<(u32, Vec<u8>, bool)>, k: nat)
    ensures
        v.graft_kept(m, walked, k) <= k,
    decreases k,
{
    if k > 0 {
        lemma_kept_few(v, m, walked, (k - 1) as nat);
    }
}

} // verus!
