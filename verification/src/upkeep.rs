//! Every way of changing an index keeps it one that is searched exactly.
//!
//! An index has a single root, and only the root's name may hold a separator:
//! walks, events and listings all keep that, since no name that a folder holds
//! contains one.

use vstd::prelude::*;
use crate::bytes::SLASH;
use crate::component::has_alike;
use crate::graft::{lemma_graft_grows, pre_order};
use crate::ids::{ids_where, lemma_ids_where};
use crate::index::{named, IndexView};
use crate::live::{after_step, graftable, step_fits, step_of, StepView};
use crate::service::empty_index;
use crate::tree::{parents_first, path, NO_PARENT};
use crate::updates::lemma_child_exists;
use crate::walk::{joined, scan_items, subtree_run, FoundView, ScanView, TaskView};
use crate::watch::{has_bits, Event, FAN_ONDIR};

verus! {

/// A name as a folder holds it.
pub open spec fn plain_name(name: Seq<u8>) -> bool {
    !name.contains(SLASH)
}

/// Everything that was found has such a name.
pub open spec fn plain_items(items: Seq<Option<FoundView>>) -> bool {
    forall|i: int| 0 <= i < items.len() ==> ((#[trigger] items[i]) matches Some(f) ==> plain_name(
        f.name,
    ))
}

impl IndexView {
    /// One tree, in order.
    pub open spec fn sound(self) -> bool {
        parents_first(self.nodes) && self.tidy()
    }
}

/// A sound index is searched exactly, with trigram lists and without.
pub proof fn sound_indexes_are_searchable(v: IndexView)
    requires
        v.sound(),
    ensures
        v.searchable(),
        (IndexView { indexed: true, ..v }).searchable(),
{
}

/// More entries, each behind its folder, and no other name or place changed.
proof fn lemma_grown(v: IndexView, w: IndexView)
    requires
        v.sound(),
        w.root == v.root,
        v.nodes.len() <= w.nodes.len() <= NO_PARENT,
        forall|i: int|
            0 <= i < v.nodes.len() ==> (#[trigger] w.nodes[i]).parent == v.nodes[i].parent
                && w.nodes[i].name == v.nodes[i].name,
        forall|i: int|
            v.nodes.len() <= i < w.nodes.len() ==> (#[trigger] w.nodes[i]).parent < i && plain_name(
                w.nodes[i].name,
            ),
    ensures
        w.sound(),
{
    assert forall|i: int| 0 <= i < w.nodes.len() implies (#[trigger] w.nodes[i]).parent == NO_PARENT
        || w.nodes[i].parent < i by {
        if i < v.nodes.len() {
            assert(v.nodes[i].parent == w.nodes[i].parent);
        }
    }
    assert forall|i: int| 0 <= i < w.nodes.len() implies ((#[trigger] w.nodes[i]).parent
        == NO_PARENT <==> i == w.root) by {
        if i < v.nodes.len() {
            assert(v.nodes[i].parent == w.nodes[i].parent);
        }
    }
    assert forall|i: int| 0 <= i < w.nodes.len() && i != w.root implies !(
    #[trigger] w.nodes[i]).name.contains(SLASH) by {
        if i < v.nodes.len() {
            assert(v.nodes[i].name == w.nodes[i].name);
        } else {
            assert(plain_name(w.nodes[i].name));
        }
    }
}

proof fn lemma_added_sound(v: IndexView, parent: u32, name: Seq<u8>, is_dir: bool, ino: u64)
    requires
        v.sound(),
        v.has(parent),
        v.nodes.len() < NO_PARENT,
        plain_name(name),
    ensures
        ({
            let w = v.added(parent, name, is_dir, ino).0;
            w.sound() && v.nodes.len() <= w.nodes.len() <= v.nodes.len() + 1
        }),
{
    match v.any_child(parent, name) {
        Some(k) => {
            lemma_child_exists(v, parent, name, k);
        },
        None => {},
    }
    lemma_grown(v, v.added(parent, name, is_dir, ino).0);
}

/// A walk starts with a sound index: the root alone.
pub proof fn walks_start_sound(root: Seq<u8>, ino: u64)
    ensures
        ({
            let (v, id) = empty_index().added(NO_PARENT, root, true, ino);
            (IndexView { root: id, ..v }).sound()
        }),
{
    let (v, id) = empty_index().added(NO_PARENT, root, true, ino);
    assert(empty_index().any_child(NO_PARENT, root) is None);
    assert(v.nodes.len() == 1 && v.nodes[0].parent == NO_PARENT && id == 0);
}

/// Taking in what a folder holds keeps an index sound.
pub proof fn walks_stay_sound(
    s: ScanView,
    dev: u64,
    parent: u32,
    items: Seq<Option<FoundView>>,
    exclude: Seq<Seq<u8>>,
    k: nat,
)
    requires
        s.index.sound(),
        s.index.has(parent),
        k <= items.len(),
        s.index.nodes.len() + k <= NO_PARENT,
        plain_items(items),
    ensures
        ({
            let t = scan_items(s, dev, parent, items, exclude, k).index;
            t.sound() && s.index.nodes.len() <= t.nodes.len() <= s.index.nodes.len() + k
        }),
    decreases k,
{
    if k > 0 {
        walks_stay_sound(s, dev, parent, items, exclude, (k - 1) as nat);
        let a = scan_items(s, dev, parent, items, exclude, (k - 1) as nat).index;
        let b = scan_items(s, dev, parent, items, exclude, k).index;
        assert(items[k - 1] matches Some(f) ==> plain_name(f.name));
        lemma_grown(a, b);
    }
}

/// So does taking in a folder that appeared.
pub proof fn new_folders_stay_sound(
    v: IndexView,
    stack: Seq<TaskView>,
    exclude: Seq<Seq<u8>>,
)
    requires
        v.sound(),
        v.nodes.len() + stack.len() <= NO_PARENT,
        forall|i: int|
            0 <= i < stack.len() ==> v.has((#[trigger] stack[i]).parent) && (stack[i].item matches Some(
                f,
            ) ==> plain_name(f.name)),
    ensures
        subtree_run(v, stack, exclude).0.sound(),
    decreases stack.len(),
{
    if stack.len() > 0 {
        let t = stack.last();
        let rest = stack.drop_last();
        assert(stack[stack.len() - 1] == t);
        let next = match t.item {
            None => v,
            Some(f) => if has_alike(
                exclude,
                joined(path(v.nodes, t.parent as int), f.name),
            ) {
                v
            } else {
                lemma_added_sound(v, t.parent, f.name, f.is_dir, f.ino);
                v.added(t.parent, f.name, f.is_dir, f.ino).0
            },
        };
        assert forall|i: int| 0 <= i < rest.len() implies next.has((#[trigger] rest[i]).parent) && (
        rest[i].item matches Some(f) ==> plain_name(f.name)) by {
            assert(rest[i] == stack[i]);
        }
        new_folders_stay_sound(next, rest, exclude);
    }
}

/// So does every event.
pub proof fn events_stay_sound(v: IndexView, ev: Event, exclude: Seq<Seq<u8>>, ino: u64)
    requires
        v.sound(),
        v.nodes.len() < NO_PARENT,
        plain_name(ev.name@),
        step_fits(v, step_of(v, ev, exclude)),
    ensures
        after_step(v, ev, step_of(v, ev, exclude), ino).0.sound(),
{
    let s = step_of(v, ev, exclude);
    match s {
        StepView::Create { parent, .. } => {
            lemma_added_sound(
                v,
                parent,
                ev.name@,
                has_bits(ev.mask, FAN_ONDIR),
                ino,
            );
        },
        StepView::Delete { id } => {
            lemma_grown(v, v.removed(id));
        },
        _ => {},
    }
}

proof fn lemma_graft_sound(v: IndexView, m: u32, walked: Seq<(u32, Vec<u8>, bool)>, k: nat)
    requires
        v.sound(),
        v.has(m),
        k <= walked.len(),
        v.graft_state(m, walked, k).0.len() <= NO_PARENT,
        pre_order(walked),
        forall|i: int| 0 <= i < walked.len() ==> plain_name((#[trigger] walked[i]).1@),
    ensures
        ({
            let (nodes, ids) = v.graft_state(m, walked, k);
            &&& (IndexView { nodes, ..v }).sound()
            &&& v.nodes.len() <= nodes.len()
            &&& ids.len() == k
            &&& forall|q: int| 0 <= q < ids.len() ==> (#[trigger] ids[q]) < nodes.len()
        }),
    decreases k,
{
    let (nodes, ids) = v.graft_state(m, walked, k);
    if k == 0 {
        lemma_grown(v, IndexView { nodes, ..v });
    } else {
        lemma_graft_grows(v, m, walked, (k - 1) as nat, k);
        lemma_graft_sound(v, m, walked, (k - 1) as nat);
        let (nodes0, ids0) = v.graft_state(m, walked, (k - 1) as nat);
        let (place, name, is_dir) = walked[k - 1];
        assert(plain_name(walked[k - 1].1@));
        let parent = if place == NO_PARENT {
            m
        } else {
            ids0[place as int]
        };
        assert(parent < nodes0.len());
        let kids = ids_where(named(v.nodes, parent, name@), v.nodes.len());
        lemma_ids_where(named(v.nodes, parent, name@), v.nodes.len());
        if kids.len() > 0 {
            assert(kids[kids.len() - 1] < v.nodes.len());
        }
        assert(ids.len() == k);
        assert forall|q: int| 0 <= q < ids.len() implies (#[trigger] ids[q]) < nodes.len() by {
            if q < k - 1 {
                assert(ids[q] == ids0[q]);
            }
        }
        lemma_grown(IndexView { nodes: nodes0, ..v }, IndexView { nodes, ..v });
    }
}

/// So does merging a listing.
pub proof fn listings_stay_sound(v: IndexView, m: u32, walked: Seq<(u32, Vec<u8>, bool)>)
    requires
        v.sound(),
        graftable(v, m, walked),
        forall|i: int| 0 <= i < walked.len() ==> plain_name((#[trigger] walked[i]).1@),
    ensures
        v.grafted(m, walked).sound(),
{
    lemma_graft_sound(v, m, walked, walked.len());
    let nodes = v.graft_state(m, walked, walked.len()).0;
    lemma_grown(IndexView { nodes, ..v }, v.grafted(m, walked));
}

} // verus!
