//! Keeping an index current: applying what the watcher reports, and merging
//! what a walk brings.

use vstd::prelude::*;
use crate::bytes::{copy, same, views};
use crate::catalog::{Listing, Part};
use crate::component::{has_alike, has_path};
use crate::graft::{pre_order, GraftStats};
use crate::index::{Index, IndexView};
use crate::text::same_text;
use crate::tree::{
    lemma_path_nonempty, lemma_push_path, lemma_same_shape_path, parents_first, path, same_shape,
    Node, NO_PARENT,
};
use crate::updates::{
    adding_changes_one_entry, children_are_found_by_name, lemma_child_exists, lemma_graft_size,
    removal_takes_effect, removed_names_are_free,
};
use crate::walk::{join, joined};
use crate::watch::{
    has_bits, Event, FAN_CREATE, FAN_DELETE, FAN_MOVED_FROM, FAN_MOVED_TO, FAN_ONDIR,
    FAN_Q_OVERFLOW,
};

verus! {

/// Seconds before an unavailable mount is tried again.
pub const RETRY: u64 = 60;

// Events.

/// What an event asks for.
pub enum Step {
    /// The kernel lost events: the index may be incomplete.
    Overflow,
    /// The folder is not in the index.
    Unresolved,
    /// Nothing.
    Ignore,
    /// Something came to be at `path`, below `parent`.
    Create { parent: u32, path: Vec<u8> },
    /// `id` is gone.
    Delete { id: u32 },
}

/// The same over plain values.
pub enum StepView {
    Overflow,
    Unresolved,
    Ignore,
    Create { parent: u32, path: Seq<u8> },
    Delete { id: u32 },
}

impl View for Step {
    type V = StepView;

    open spec fn view(&self) -> StepView {
        match *self {
            Step::Overflow => StepView::Overflow,
            Step::Unresolved => StepView::Unresolved,
            Step::Ignore => StepView::Ignore,
            Step::Create { parent, path } => StepView::Create { parent, path: path@ },
            Step::Delete { id } => StepView::Delete { id },
        }
    }
}

/// The folder in which something changed: by its inode, or else by its path,
/// which covers folders created since the walk.
pub open spec fn event_parent(v: IndexView, ev: Event) -> Option<u32> {
    if v.dir_ino.contains_key(ev.parent_ino) {
        Some(v.dir_ino[ev.parent_ino])
    } else {
        match ev.parent_path {
            Some(p) => v.resolved(p@),
            None => None,
        }
    }
}

pub open spec fn creates(ev: Event) -> bool {
    has_bits(ev.mask, FAN_CREATE) || has_bits(ev.mask, FAN_MOVED_TO)
}

pub open spec fn deletes(ev: Event) -> bool {
    has_bits(ev.mask, FAN_DELETE) || has_bits(ev.mask, FAN_MOVED_FROM)
}

/// What an event asks for. Anything inside an excluded folder has no parent in
/// the index; only the folder itself, created anew, has to be left out.
pub open spec fn step_of(v: IndexView, ev: Event, exclude: Seq<Seq<u8>>) -> StepView {
    if has_bits(ev.mask, FAN_Q_OVERFLOW) {
        StepView::Overflow
    } else {
        match event_parent(v, ev) {
            None => StepView::Unresolved,
            Some(parent) => {
                let full = joined(path(v.nodes, parent as int), ev.name@);
                if creates(ev) {
                    if has_alike(exclude, full) {
                        StepView::Ignore
                    } else {
                        StepView::Create { parent, path: full }
                    }
                } else if deletes(ev) {
                    match v.child(parent, ev.name@) {
                        Some(id) => StepView::Delete { id },
                        None => StepView::Ignore,
                    }
                } else {
                    StepView::Ignore
                }
            },
        }
    }
}

/// The step can be taken in this index.
pub open spec fn step_fits(v: IndexView, s: StepView) -> bool {
    match s {
        StepView::Create { parent, .. } => v.has(parent),
        StepView::Delete { id } => v.has(id),
        _ => true,
    }
}

/// What an event asks for. The path is reconstructed from the index rather
/// than from the event, so nothing depends on resolving handles to paths.
pub fn plan(ix: &Index, ev: &Event, exclude: &Vec<Vec<u8>>) -> (s: Step)
    requires
        ix.wf(),
    ensures
        s@ == step_of(ix@, *ev, views(exclude@)),
        step_fits(ix@, s@),
{
    if ev.is_overflow() {
        return Step::Overflow;
    }
    let by_ino = ix.dir_by_ino(ev.parent_ino);
    let found = match by_ino {
        Some(id) => {
            assert(ix.dir_ino@[ev.parent_ino] < ix@.nodes.len());
            Some(id)
        },
        None => match &ev.parent_path {
            Some(p) => ix.resolve_path(p.as_slice()),
            None => None,
        },
    };
    let parent = match found {
        Some(p) => p,
        None => {
            return Step::Unresolved;
        },
    };
    if ev.is_create() {
        let dir = ix.path_bytes(parent);
        let full = join(dir.as_slice(), ev.name.as_slice());
        if has_path(exclude, full.as_slice()) {
            return Step::Ignore;
        }
        return Step::Create { parent, path: full };
    }
    if ev.is_delete() {
        return match ix.find_child(parent, ev.name.as_slice()) {
            Some(id) => Step::Delete { id },
            None => Step::Ignore,
        };
    }
    Step::Ignore
}

/// The index after a step, and the entry it made.
pub open spec fn after_step(v: IndexView, ev: Event, s: StepView, ino: u64) -> (
    IndexView,
    Option<u32>,
) {
    match s {
        StepView::Create { parent, .. } => {
            let (w, id) = v.added(parent, ev.name@, has_bits(ev.mask, FAN_ONDIR), ino);
            (w, Some(id))
        },
        StepView::Delete { id } => (v.removed(id), None),
        _ => (v, None),
    }
}

/// The folder to be walked, if what was made is one.
pub open spec fn to_walk(ev: Event, made: Option<u32>) -> Option<u32> {
    if has_bits(ev.mask, FAN_ONDIR) {
        made
    } else {
        None
    }
}

/// Takes a step. `ino` is the inode of what was created, zero if it is gone
/// again. Returns the folder to be walked, if one came to be.
pub fn settle(ix: &mut Index, ev: &Event, s: &Step, ino: u64) -> (r: Option<u32>)
    requires
        old(ix).wf(),
        step_fits(old(ix)@, s@),
        old(ix)@.nodes.len() < NO_PARENT,
    ensures
        final(ix).wf(),
        ({
            let (v, made) = after_step(old(ix)@, *ev, s@, ino);
            &&& final(ix)@ == v
            &&& r == to_walk(*ev, made)
        }),
        r matches Some(id) ==> final(ix)@.has(id),
{
    match s {
        Step::Create { parent, .. } => {
            let id = ix.add(*parent, ev.name.as_slice(), ev.is_dir(), ino);
            if ev.is_dir() {
                Some(id)
            } else {
                None
            }
        },
        Step::Delete { id } => {
            ix.remove(*id);
            None
        },
        _ => None,
    }
}

// Listings.

/// Is this a listing in pre-order?
pub fn is_listing(walked: &[(u32, Vec<u8>, bool)]) -> (r: bool)
    ensures
        r == pre_order(walked@),
{
    let mut k: usize = 0;
    while k < walked.len()
        invariant
            k <= walked@.len(),
            forall|q: int|
                0 <= q < k ==> (#[trigger] walked@[q]).0 == NO_PARENT || walked@[q].0 < q,
        decreases walked@.len() - k,
    {
        let place = walked[k].0;
        if !(place == NO_PARENT || (place as usize) < k) {
            assert(walked@[k as int].0 != NO_PARENT && walked@[k as int].0 >= k);
            return false;
        }
        k = k + 1;
    }
    true
}

/// A listing that can be grafted: it is in pre-order, and the arena holds what
/// is new in it.
pub open spec fn graftable(v: IndexView, mount: u32, walked: Seq<(u32, Vec<u8>, bool)>) -> bool {
    v.has(mount) && pre_order(walked) && v.graft_state(mount, walked, walked.len()).0.len()
        <= NO_PARENT
}

/// What became of the entries below the mount. A name that is listed twice
/// counts twice; where more is found again than was there, nothing is gone.
pub open spec fn graft_counted(
    v: IndexView,
    mount: u32,
    walked: Seq<(u32, Vec<u8>, bool)>,
    s: GraftStats,
) -> bool {
    let kept = v.graft_kept(mount, walked, walked.len());
    &&& s.total == walked.len()
    &&& s.added == walked.len() - kept
    &&& s.removed == (if kept <= v.count_below(mount) {
        v.count_below(mount) - kept
    } else {
        0
    })
}

impl Index {
    /// Grafts a listing, if it is one and there is room for it; otherwise
    /// leaves the index alone.
    pub fn try_graft(&mut self, mount: u32, walked: &[(u32, Vec<u8>, bool)]) -> (r: Option<
        GraftStats,
    >)
        requires
            old(self).wf(),
        ensures
            final(self).wf(),
            r is Some <==> graftable(old(self)@, mount, walked@),
            r is None ==> final(self)@ == old(self)@,
            r matches Some(s) ==> final(self)@ == old(self)@.grafted(mount, walked@)
                && graft_counted(old(self)@, mount, walked@, s),
    {
        if mount as usize >= self.entries.len() || !is_listing(walked) {
            return None;
        }
        // A listing that fits even if all of it is new needs no closer look.
        if walked.len() > NO_PARENT as usize - self.entries.len() {
            if !self.graft_fits(mount, walked) {
                return None;
            }
        } else {
            proof {
                lemma_graft_size(self@, mount, walked@, walked@.len());
            }
        }
        let (was_alive, kept) = self.replace_below(mount, walked);
        let removed: usize = if kept <= was_alive {
            was_alive - kept
        } else {
            0
        };
        Some(GraftStats { total: walked.len(), added: walked.len() - kept, removed })
    }
}

/// The index with the first `k` listings grafted, each where its mount is
/// found.
pub open spec fn all_grafted(v: IndexView, listings: Seq<(String, Listing)>, k: nat) -> IndexView
    decreases k,
{
    if k == 0 {
        v
    } else {
        let w = all_grafted(v, listings, (k - 1) as nat);
        match w.resolved(vstd::utf8::encode_utf8(listings[k - 1].0@)) {
            Some(mount) => if graftable(w, mount, listings[k - 1].1@) {
                w.grafted(mount, listings[k - 1].1@)
            } else {
                w
            },
            None => w,
        }
    }
}

/// A freshly walked index, ready to swap in.
pub open spec fn completed(v: IndexView, listings: Seq<(String, Listing)>) -> IndexView {
    IndexView { indexed: true, ..all_grafted(v, listings, listings.len()) }
}

/// Makes a freshly walked index ready to swap in: the last complete listing of
/// each rescanned mount inside it is grafted in, and the trigrams are built.
pub fn complete(fresh: &mut Index, listings: &Vec<(String, Listing)>)
    requires
        old(fresh).wf(),
    ensures
        final(fresh).wf(),
        final(fresh)@ == completed(old(fresh)@, listings@),
{
    let ghost v = fresh@;
    let mut i: usize = 0;
    while i < listings.len()
        invariant
            i <= listings@.len(),
            fresh.wf(),
            fresh@ == all_grafted(v, listings@, i as nat),
        decreases listings@.len() - i,
    {
        match fresh.resolve_path(listings[i].0.as_str().as_bytes()) {
            Some(mount) => {
                let _ = fresh.try_graft(mount, listings[i].1.as_slice());
            },
            None => {},
        }
        i = i + 1;
    }
    fresh.build_trigrams();
}

// Parts.

/// An event, as plain values.
pub struct EventView {
    pub mask: u64,
    pub parent_ino: u64,
    pub parent_path: Option<Seq<u8>>,
    pub name: Seq<u8>,
}

impl View for Event {
    type V = EventView;

    open spec fn view(&self) -> EventView {
        EventView {
            mask: self.mask,
            parent_ino: self.parent_ino,
            parent_path: match self.parent_path {
                Some(p) => Some(p@),
                None => None,
            },
            name: self.name@,
        }
    }
}

pub open spec fn events_of(events: Seq<Event>) -> Seq<EventView> {
    Seq::new(events.len(), |i: int| events[i]@)
}

/// A copy of `ev`.
pub fn copy_event(ev: &Event) -> (out: Event)
    ensures
        out@ == ev@,
{
    let parent_path = match &ev.parent_path {
        Some(p) => Some(copy(p.as_slice())),
        None => None,
    };
    Event { mask: ev.mask, parent_ino: ev.parent_ino, parent_path, name: copy(ev.name.as_slice()) }
}

/// What is captured at the start of a walk.
pub open spec fn capture_begun() -> Option<Seq<EventView>> {
    Some(seq![])
}

/// What is captured after more events.
pub open spec fn captured_with(c: Option<Seq<EventView>>, more: Seq<EventView>) -> Option<
    Seq<EventView>,
> {
    match c {
        Some(sofar) => Some(sofar + more),
        None => None,
    }
}

/// What was captured, to be replayed.
pub open spec fn to_replay(c: Option<Seq<EventView>>) -> Seq<EventView> {
    match c {
        Some(sofar) => sofar,
        None => seq![],
    }
}

/// The listing kept for `p`, if there is one: the last one.
pub open spec fn listing_for(listings: Seq<(String, Listing)>, p: Seq<char>) -> Option<
    Seq<(u32, Vec<u8>, bool)>,
>
    decreases listings.len(),
{
    if listings.len() == 0 {
        None
    } else if listings.last().0@ == p {
        Some(listings.last().1@)
    } else {
        listing_for(listings.drop_last(), p)
    }
}

impl Part {
    /// The events captured so far, while a walk runs.
    pub open spec fn captured(self) -> Option<Seq<EventView>> {
        match self.capture {
            Some(events) => Some(events_of(events@)),
            None => None,
        }
    }

    /// A walk of this part starts: events are captured from now on.
    pub fn begin_capture(&mut self)
        ensures
            final(self).captured() == capture_begun(),
            final(self).index == old(self).index,
            final(self).root == old(self).root,
            final(self).listings == old(self).listings,
    {
        self.capture = Some(Vec::new());
        assert(self.captured()->Some_0 =~= Seq::<EventView>::empty());
    }

    /// A batch of events is about to be applied; it is captured if a walk
    /// runs.
    pub fn capture_events(&mut self, events: &Vec<Event>)
        ensures
            final(self).captured() == captured_with(old(self).captured(), events_of(events@)),
            final(self).index == old(self).index,
            final(self).root == old(self).root,
            final(self).listings == old(self).listings,
    {
        let ghost all = events_of(events@);
        let mut held: Option<Vec<Event>> = None;
        std::mem::swap(&mut held, &mut self.capture);
        if let Some(buf) = held {
            let mut buf: Vec<Event> = buf;
            let ghost sofar = events_of(buf@);
            let mut i: usize = 0;
            assert(events_of(buf@) =~= sofar + all.take(0));
            while i < events.len()
                invariant
                    i <= events@.len(),
                    all == events_of(events@),
                    events_of(buf@) == sofar + all.take(i as int),
                decreases events@.len() - i,
            {
                let ghost before = events_of(buf@);
                let ev = copy_event(&events[i]);
                buf.push(ev);
                proof {
                    assert(events_of(buf@) =~= before.push(ev@));
                    assert(all.take(i + 1) =~= all.take(i as int).push(all[i as int]));
                }
                i = i + 1;
            }
            assert(all.take(i as int) =~= all);
            self.capture = Some(buf);
        }
    }

    /// The walk is over: the captured events, in order, to be replayed onto
    /// the fresh index. None is captured any more.
    pub fn take_captured(&mut self) -> (events: Vec<Event>)
        ensures
            events_of(events@) == to_replay(old(self).captured()),
            final(self).capture is None,
            final(self).index == old(self).index,
            final(self).root == old(self).root,
            final(self).listings == old(self).listings,
    {
        let mut held: Option<Vec<Event>> = None;
        std::mem::swap(&mut held, &mut self.capture);
        match held {
            Some(events) => events,
            None => {
                let none: Vec<Event> = Vec::new();
                assert(events_of(none@) =~= Seq::<EventView>::empty());
                none
            },
        }
    }

    /// Keeps the last complete listing of the mount `p`, in place of any
    /// earlier one.
    pub fn keep_listing(&mut self, p: &str, list: Listing)
        ensures
            listing_for(final(self).listings@, p@) == Some(list@),
            forall|other: Seq<char>|
                other != p@ ==> #[trigger] listing_for(final(self).listings@, other)
                    == listing_for(old(self).listings@, other),
            final(self).index == old(self).index,
            final(self).root == old(self).root,
            final(self).capture == old(self).capture,
    {
        let ghost before = self.listings@;
        let mut at: usize = 0;
        let n: usize = self.listings.len();
        while at < n && !same_text(self.listings[at].0.as_str(), p)
            invariant
                n == self.listings@.len(),
                at <= n,
                *self == *old(self),
                before == self.listings@,
            decreases n - at,
        {
            at = at + 1;
        }
        if at < n {
            let _ = self.listings.remove(at);
            assert(self.listings@ =~= before.remove(at as int));
            proof {
                assert forall|other: Seq<char>| other != p@ implies #[trigger] listing_for(
                    self.listings@,
                    other,
                ) == listing_for(before, other) by {
                    lemma_listing_removed(before, at as int, other);
                }
            }
        }
        let ghost mid = self.listings@;
        let ghost list0 = list@;
        self.listings.push((p.to_owned(), list));
        proof {
            let after = self.listings@;
            assert(after.drop_last() =~= mid);
            assert(after.last().1@ == list0);
            assert forall|other: Seq<char>| other != p@ implies #[trigger] listing_for(after, other)
                == listing_for(before, other) by {
                assert(listing_for(after, other) == listing_for(mid, other));
            }
        }
    }
}

proof fn lemma_listing_removed(listings: Seq<(String, Listing)>, at: int, p: Seq<char>)
    requires
        0 <= at < listings.len(),
        listings[at].0@ != p,
    ensures
        listing_for(listings.remove(at), p) == listing_for(listings, p),
    decreases listings.len(),
{
    let less = listings.remove(at);
    if at == listings.len() - 1 {
        assert(less =~= listings.drop_last());
    } else {
        assert(less.last() == listings.last());
        lemma_listing_removed(listings.drop_last(), at, p);
        assert(less.drop_last() =~= listings.drop_last().remove(at));
    }
}

/// The time until the next round of rescans.
pub open spec fn rescan_pause(all_ok: bool, interval: u64) -> u64 {
    if all_ok || interval < RETRY {
        interval
    } else {
        RETRY
    }
}

/// How long to wait before the next round of rescans. A mount that is not
/// available yet is retried every minute instead of waiting out the whole
/// interval.
pub fn rescan_wait(all_ok: bool, interval: u64) -> (secs: u64)
    ensures
        secs == rescan_pause(all_ok, interval),
        all_ok ==> secs == interval,
        secs <= interval,
{
    if all_ok || interval < RETRY {
        interval
    } else {
        RETRY
    }
}

// What this promises.

/// What a create event leaves in the index is alive and stands at the path
/// that the event names.
pub proof fn created_entries_stand_where_they_were_made(
    v: IndexView,
    ev: Event,
    exclude: Seq<Seq<u8>>,
    ino: u64,
)
    requires
        parents_first(v.nodes),
        v.nodes.len() < NO_PARENT,
        step_of(v, ev, exclude) is Create,
        step_fits(v, step_of(v, ev, exclude)),
    ensures
        ({
            let s = step_of(v, ev, exclude);
            let (w, made) = after_step(v, ev, s, ino);
            &&& made is Some
            &&& w.has(made->Some_0)
            &&& w.nodes[made->Some_0 as int].alive
            &&& s matches StepView::Create { parent, path: full } && path(
                w.nodes,
                made->Some_0 as int,
            ) == full
        }),
{
    let s = step_of(v, ev, exclude);
    let parent = event_parent(v, ev)->Some_0;
    let (w, made) = after_step(v, ev, s, ino);
    let id = made->Some_0;
    match v.any_child(parent, ev.name@) {
        Some(k) => {
            lemma_child_exists(v, parent, ev.name@, k);
            assert(same_shape(v.nodes, w.nodes));
            lemma_same_shape_path(v.nodes, w.nodes, id as int);
            assert(v.nodes[id as int].parent < id);
        },
        None => {
            let node = w.nodes[id as int];
            assert(w.nodes =~= v.nodes.push(node));
            lemma_push_path(v.nodes, node, parent as int);
        },
    }
}

/// What a delete event names is dead afterwards.
pub proof fn deleted_entries_are_gone(
    v: IndexView,
    ev: Event,
    exclude: Seq<Seq<u8>>,
    ino: u64,
)
    requires
        step_of(v, ev, exclude) is Delete,
        step_fits(v, step_of(v, ev, exclude)),
    ensures
        step_of(v, ev, exclude) matches StepView::Delete { id } && !after_step(
            v,
            ev,
            step_of(v, ev, exclude),
            ino,
        ).0.nodes[id as int].alive,
{
    match step_of(v, ev, exclude) {
        StepView::Delete { id } => {
            removal_takes_effect(v, id, 0);
        },
        _ => {},
    }
}

/// The folder that an event speaks of: the one with its inode, or, where that
/// is not known, the one at its path.
pub open spec fn happens_in(v: IndexView, ev: Event, parent: u32) -> bool {
    if v.dir_ino.contains_key(ev.parent_ino) {
        v.dir_ino[ev.parent_ino] == parent
    } else {
        ev.parent_path matches Some(p) && v.resolved(p@) == Some(parent)
    }
}

/// Whatever is deleted or moved away is removed: an event that says so, of a
/// name that is alive in a known folder, is the deletion of that entry, and
/// after it no living entry of that name is left in the folder, where names are
/// unique.
pub proof fn what_goes_away_is_removed(
    v: IndexView,
    ev: Event,
    exclude: Seq<Seq<u8>>,
    parent: u32,
    id: u32,
    ino: u64,
)
    requires
        parents_first(v.nodes),
        ev.mask & 0x4000 == 0,
        ev.mask & 0x100 == 0,
        ev.mask & 0x80 == 0,
        ev.mask & 0x200 != 0 || ev.mask & 0x40 != 0,
        happens_in(v, ev, parent),
        id < v.nodes.len(),
        v.nodes[id as int].alive,
        v.nodes[id as int].parent == parent,
        v.nodes[id as int].name == ev.name@,
        forall|i: int|
            0 <= i < v.nodes.len() && i != id && (#[trigger] v.nodes[i]).parent == parent
                && v.nodes[i].name == ev.name@ ==> !v.nodes[i].alive,
    ensures
        step_of(v, ev, exclude) == (StepView::Delete { id }),
        after_step(v, ev, step_of(v, ev, exclude), ino).0 == v.removed(id),
        after_step(v, ev, step_of(v, ev, exclude), ino).1 is None,
        v.removed(id).child(parent, ev.name@) is None,
{
    children_are_found_by_name(v, parent, ev.name@, id);
    assert forall|i: int| 0 <= i < id implies !((#[trigger] v.nodes[i]).alive && v.nodes[i].parent
        == parent && v.nodes[i].name == ev.name@) by {}
    assert(v.child(parent, ev.name@) == Some(id));
    removed_names_are_free(v, id);
}

/// What was never there cannot go away: the event changes nothing.
pub proof fn unknown_names_cannot_go_away(
    v: IndexView,
    ev: Event,
    exclude: Seq<Seq<u8>>,
    parent: u32,
)
    requires
        parents_first(v.nodes),
        ev.mask & 0x4000 == 0,
        ev.mask & 0x100 == 0,
        ev.mask & 0x80 == 0,
        happens_in(v, ev, parent),
        ev.mask & 0x200 == 0 && ev.mask & 0x40 == 0 || forall|i: int|
            0 <= i < v.nodes.len() && (#[trigger] v.nodes[i]).parent == parent && v.nodes[i].name
                == ev.name@ ==> !v.nodes[i].alive,
    ensures
        step_of(v, ev, exclude) is Ignore,
{
    children_are_found_by_name(v, parent, ev.name@, 0);
}

/// Whatever is created or moved here is taken in: an event that says so, in a
/// known folder, leaves one living entry of that name there, a folder if the
/// event speaks of one, and touches no other entry. Its path is the folder's
/// with the name behind it. A folder is known by its inode and is walked.
pub proof fn what_comes_to_be_is_taken_in(
    v: IndexView,
    ev: Event,
    exclude: Seq<Seq<u8>>,
    parent: u32,
    ino: u64,
)
    requires
        parents_first(v.nodes),
        v.nodes.len() < NO_PARENT,
        parent < v.nodes.len(),
        ev.mask & 0x4000 == 0,
        ev.mask & 0x100 != 0 || ev.mask & 0x80 != 0,
        happens_in(v, ev, parent),
        !has_alike(
            exclude,
            path(v.nodes, parent as int) + (if path(v.nodes, parent as int).last() == 0x2f {
                seq![]
            } else {
                seq![0x2f]
            }) + ev.name@,
        ),
    ensures
        ({
            let s = step_of(v, ev, exclude);
            let (w, made) = after_step(v, ev, s, ino);
            let is_dir = ev.mask & 0x4000_0000 != 0;
            &&& s matches StepView::Create { parent: p, path: full } && p == parent && full == path(
                v.nodes,
                parent as int,
            ) + (if path(v.nodes, parent as int).last() == 0x2f {
                seq![]
            } else {
                seq![0x2f]
            }) + ev.name@
            &&& made matches Some(id) && id < w.nodes.len() && w.nodes[id as int] == (Node {
                parent,
                name: ev.name@,
                is_dir,
                alive: true,
            }) && (forall|i: int|
                0 <= i < v.nodes.len() && i != id ==> #[trigger] w.nodes[i] == v.nodes[i])
                && w.dir_ino == (if is_dir {
                v.dir_ino.insert(ino, id)
            } else {
                v.dir_ino
            })
        }),
{
    adding_changes_one_entry(v, parent, ev.name@, ev.mask & 0x4000_0000 != 0, ino);
    lemma_path_nonempty(v.nodes, parent as int);
}

/// An excluded folder that comes to be is left alone, an event in a folder that
/// is not known is handed back, and lost events are reported, whatever else the
/// event says.
pub proof fn other_events_change_nothing(v: IndexView, ev: Event, exclude: Seq<Seq<u8>>, ino: u64)
    ensures
        ev.mask & 0x4000 != 0 ==> step_of(v, ev, exclude) is Overflow,
        ev.mask & 0x4000 == 0 && (forall|p: u32| !happens_in(v, ev, p)) ==> step_of(
            v,
            ev,
            exclude,
        ) is Unresolved,
        ev.mask & 0x4000 == 0 && (ev.mask & 0x100 != 0 || ev.mask & 0x80 != 0) ==> forall|p: u32|
            happens_in(v, ev, p) && has_alike(
                exclude,
                #[trigger] joined(path(v.nodes, p as int), ev.name@),
            ) ==> step_of(v, ev, exclude) is Ignore,
        !(step_of(v, ev, exclude) is Create) && !(step_of(v, ev, exclude) is Delete) ==> after_step(
            v,
            ev,
            step_of(v, ev, exclude),
            ino,
        ) == (v, None::<u32>),
{
    if let Some(p) = event_parent(v, ev) {
        assert(happens_in(v, ev, p));
    }
}

/// A mount that could be listed is listed again after its interval; one that
/// could not after a minute at most, and never later than its interval.
pub proof fn failed_rescans_are_tried_soon(all_ok: bool, interval: u64, wait: u64)
    requires
        wait == rescan_pause(all_ok, interval),
    ensures
        all_ok ==> wait == interval,
        !all_ok ==> wait <= 60 && wait <= interval && (wait == 60 || wait == interval),
{
}

/// Every event that is captured is replayed, as it was and in order; while none
/// is captured, none is.
pub proof fn captured_events_are_replayed(a: Seq<EventView>, b: Seq<EventView>, ev: Event)
    ensures
        to_replay(captured_with(captured_with(capture_begun(), a), b)) == a + b,
        captured_with(None, a) is None,
        to_replay(None) == Seq::<EventView>::empty(),
        ev@.mask == ev.mask,
        ev@.name == ev.name@,
        ev@.parent_ino == ev.parent_ino,
        ev@.parent_path is Some <==> ev.parent_path is Some,
        ev.parent_path matches Some(p) ==> ev@.parent_path == Some(p@),
{
    assert(Seq::<EventView>::empty() + a =~= a);
}

/// A folder that came to be is walked, and a file is not.
pub proof fn new_folders_are_walked(ev: Event, id: u32)
    ensures
        ev.mask & 0x4000_0000 != 0 ==> to_walk(ev, Some(id)) == Some(id),
        ev.mask & 0x4000_0000 == 0 ==> to_walk(ev, Some(id)) is None,
        to_walk(ev, None) is None,
{
}

/// A fresh index takes in the listing of every mount that it holds, one after the
/// other, and is ready for searching.
pub proof fn fresh_indexes_take_in_their_mounts(
    v: IndexView,
    listings: Seq<(String, Listing)>,
    next: (String, Listing),
)
    ensures
        completed(v, listings).indexed,
        completed(v, Seq::<(String, Listing)>::empty()).nodes == v.nodes,
        ({
            let w = all_grafted(v, listings, listings.len());
            let all = listings.push(next);
            match w.resolved(vstd::utf8::encode_utf8(next.0@)) {
                Some(m) => if graftable(w, m, next.1@) {
                    completed(v, all).nodes == w.grafted(m, next.1@).nodes
                } else {
                    completed(v, all).nodes == w.nodes
                },
                None => completed(v, all).nodes == w.nodes,
            }
        }),
{
    lemma_grafted_fewer(v, listings, next, listings.len());
}

proof fn lemma_grafted_fewer(
    v: IndexView,
    listings: Seq<(String, Listing)>,
    next: (String, Listing),
    k: nat,
)
    requires
        k <= listings.len(),
    ensures
        all_grafted(v, listings.push(next), k) == all_grafted(v, listings, k),
    decreases k,
{
    if k > 0 {
        lemma_grafted_fewer(v, listings, next, (k - 1) as nat);
    }
}

/// A listing can be grafted when its elements follow their folders and there is
/// room for them.
pub proof fn listings_in_order_can_be_grafted(
    v: IndexView,
    m: u32,
    walked: Seq<(u32, Vec<u8>, bool)>,
)
    requires
        v.has(m),
        v.graft_state(m, walked, walked.len()).0.len() <= 0xffff_ffff,
    ensures
        graftable(v, m, walked) <==> forall|k: int|
            0 <= k < walked.len() ==> (#[trigger] walked[k]).0 == 0xffff_ffff || walked[k].0 < k,
{
}

/// An event is placed by the inode of its folder where that is known, and else by the
/// folder's path; where neither leads anywhere, it is not placed.
pub proof fn events_are_placed_by_inode_or_path(v: IndexView, ev: Event)
    ensures
        v.dir_ino.contains_key(ev.parent_ino) ==> event_parent(v, ev) == Some(
            v.dir_ino[ev.parent_ino],
        ),
        !v.dir_ino.contains_key(ev.parent_ino) ==> (match ev.parent_path {
            Some(p) => event_parent(v, ev) == v.resolved(p@),
            None => event_parent(v, ev) is None,
        }),
        event_parent(v, ev) is None && ev.mask & 0x4000 == 0 ==> forall|exclude: Seq<Seq<u8>>|
            #[trigger] step_of(v, ev, exclude) is Unresolved,
        ev.mask & 0x4000 != 0 ==> forall|exclude: Seq<Seq<u8>>|
            #[trigger] step_of(v, ev, exclude) is Overflow,
{
}

} // verus!
