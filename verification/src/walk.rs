//! Walking the filesystem to seed the index.
//!
//! What a folder holds is read elsewhere and handed in; what becomes of it is
//! decided here. Each walk says which folder it wants to see next, until there
//! is none.

use vstd::prelude::*;
use crate::bytes::{append, bytes_if, copy, views, SLASH};
use crate::catalog::Listing;
use crate::component::{has_alike, has_path};
use crate::graft::pre_order;
use crate::index::{Index, IndexView};
use crate::tree::{
    lemma_push_path, lemma_same_shape_path, parents_first, path, same_shape, separator, Node,
    NO_PARENT,
};
use crate::updates::lemma_child_exists;

verus! {

/// Folders nested deeper than this below a new one are not walked.
pub const MAX_DEPTH: u32 = 64;

/// One entry of a folder. Symbolic links are not followed: one that leads to a
/// folder is no folder itself.
pub struct Found {
    pub name: Vec<u8>,
    pub is_dir: bool,
    pub ino: u64,
    /// The device that a folder is on; None if it could not be asked, and for
    /// anything else.
    pub dev: Option<u64>,
}

/// What reading a folder brings up.
pub enum Item {
    Found(Found),
    /// An entry that could not be read.
    Unreadable,
}

/// The same over plain values.
pub struct FoundView {
    pub name: Seq<u8>,
    pub is_dir: bool,
    pub ino: u64,
    pub dev: Option<u64>,
}

impl View for Item {
    type V = Option<FoundView>;

    open spec fn view(&self) -> Option<FoundView> {
        match *self {
            Item::Found(f) => Some(
                FoundView { name: f.name@, is_dir: f.is_dir, ino: f.ino, dev: f.dev },
            ),
            Item::Unreadable => None,
        }
    }
}

/// The views of what a folder holds.
pub open spec fn items_of(items: Seq<Item>) -> Seq<Option<FoundView>> {
    Seq::new(items.len(), |i: int| items[i]@)
}

/// The path of `name` in the folder `dir`.
pub open spec fn joined(dir: Seq<u8>, name: Seq<u8>) -> Seq<u8> {
    dir + separator(dir) + name
}

/// The path of `name` in the folder `dir`.
pub fn join(dir: &[u8], name: &[u8]) -> (out: Vec<u8>)
    ensures
        out@ == joined(dir@, name@),
{
    let mut out = copy(dir);
    if !(dir.len() > 0 && dir[dir.len() - 1] == SLASH) {
        out.push(SLASH);
    }
    append(&mut out, name);
    assert(out@ =~= joined(dir@, name@));
    out
}

// The first walk.

/// What a walk came to.
#[derive(Clone, Copy, Debug, PartialEq, Eq, Structural)]
pub struct ScanStats {
    pub files: usize,
    pub dirs: usize,
    pub errors: usize,
}

impl ScanStats {
    /// `n` more entries can be counted.
    pub open spec fn room(self, n: int) -> bool {
        self.files + n <= usize::MAX && self.dirs + n <= usize::MAX && self.errors + n
            <= usize::MAX
    }
}

/// A walk of one folder, staying on its device.
pub struct Scan {
    pub dev: u64,
    /// Folders still to be read.
    pub queue: Vec<u32>,
    pub stats: ScanStats,
}

/// The state of a walk.
pub struct ScanView {
    pub index: IndexView,
    pub queue: Seq<u32>,
    pub stats: ScanStats,
}

pub open spec fn one_more(s: ScanStats, files: int, dirs: int, errors: int) -> ScanStats {
    ScanStats {
        files: (s.files + files) as usize,
        dirs: (s.dirs + dirs) as usize,
        errors: (s.errors + errors) as usize,
    }
}

/// What one entry of the folder `parent` changes. What is excluded is left
/// out. A folder on another device is listed without its inode number, which
/// would collide with this device's, and is not walked; one whose device is
/// not known is not walked either.
pub open spec fn scan_item(
    s: ScanView,
    dev: u64,
    parent: u32,
    item: Option<FoundView>,
    exclude: Seq<Seq<u8>>,
) -> ScanView {
    match item {
        None => ScanView { stats: one_more(s.stats, 0, 0, 1), ..s },
        Some(f) => {
            let id = s.index.nodes.len() as u32;
            if has_alike(exclude, joined(path(s.index.nodes, parent as int), f.name)) {
                s
            } else if !f.is_dir {
                ScanView {
                    index: s.index.with_entry(parent, f.name, false),
                    stats: one_more(s.stats, 1, 0, 0),
                    ..s
                }
            } else {
                match f.dev {
                    Some(d) => if d == dev {
                        ScanView {
                            index: s.index.with_entry(parent, f.name, true).with_ino(
                                true,
                                f.ino,
                                id,
                            ),
                            queue: s.queue.push(id),
                            stats: one_more(s.stats, 0, 1, 0),
                        }
                    } else {
                        ScanView {
                            index: s.index.with_entry(parent, f.name, true),
                            stats: one_more(s.stats, 0, 1, 0),
                            ..s
                        }
                    },
                    None => ScanView {
                        index: s.index.with_entry(parent, f.name, true).with_ino(true, f.ino, id),
                        stats: one_more(s.stats, 0, 1, 1),
                        ..s
                    },
                }
            }
        },
    }
}

/// What the first `k` entries change.
pub open spec fn scan_items(
    s: ScanView,
    dev: u64,
    parent: u32,
    items: Seq<Option<FoundView>>,
    exclude: Seq<Seq<u8>>,
    k: nat,
) -> ScanView
    decreases k,
{
    if k == 0 {
        s
    } else {
        scan_item(
            scan_items(s, dev, parent, items, exclude, (k - 1) as nat),
            dev,
            parent,
            items[k - 1],
            exclude,
        )
    }
}

/// A walk at its start.
pub open spec fn scan_begun(v: IndexView, root: Seq<u8>, meta: Option<(u64, u64)>) -> ScanView {
    match meta {
        None => ScanView {
            index: v,
            queue: seq![],
            stats: ScanStats { files: 0, dirs: 0, errors: 1 },
        },
        Some((ino, dev)) => {
            let (w, id) = v.added(NO_PARENT, root, true, ino);
            ScanView {
                index: IndexView { root: id, ..w },
                queue: seq![id],
                stats: ScanStats { files: 0, dirs: 1, errors: 0 },
            }
        },
    }
}

/// The folder that a walk reads next, if there is one left.
pub open spec fn read_next(s: ScanView) -> Option<Seq<u8>> {
    if s.queue.len() == 0 {
        None
    } else {
        Some(path(s.index.nodes, s.queue.last() as int))
    }
}

/// A walk after the next folder was read, or could not be.
pub open spec fn scan_entered(
    s: ScanView,
    dev: u64,
    items: Option<Seq<Item>>,
    exclude: Seq<Seq<u8>>,
) -> ScanView {
    let rest = ScanView { queue: s.queue.drop_last(), ..s };
    match items {
        None => ScanView { stats: one_more(s.stats, 0, 0, 1), ..rest },
        Some(list) => scan_items(
            rest,
            dev,
            s.queue.last(),
            items_of(list),
            exclude,
            list.len(),
        ),
    }
}

impl Scan {
    /// The folders to be read are entries.
    pub open spec fn wf(self, v: IndexView) -> bool {
        forall|i: int| 0 <= i < self.queue@.len() ==> v.has(#[trigger] self.queue@[i])
    }

    pub open spec fn state(self, v: IndexView) -> ScanView {
        ScanView { index: v, queue: self.queue@, stats: self.stats }
    }

    /// Starts with `root`, whose inode and device are known unless it cannot
    /// be reached; then there is nothing to walk.
    pub fn start(index: &mut Index, root: &[u8], meta: Option<(u64, u64)>) -> (s: Scan)
        requires
            old(index).wf(),
            old(index)@.nodes.len() < NO_PARENT,
        ensures
            final(index).wf(),
            s.wf(final(index)@),
            s.state(final(index)@) == scan_begun(old(index)@, root@, meta),
            meta matches Some((ino, dev)) ==> s.dev == dev,
            meta is None ==> *final(index) == *old(index),
    {
        match meta {
            None => Scan {
                dev: 0,
                queue: Vec::new(),
                stats: ScanStats { files: 0, dirs: 0, errors: 1 },
            },
            Some((ino, dev)) => {
                let id = index.add(NO_PARENT, root, true, ino);
                index.set_root(id);
                let mut queue: Vec<u32> = Vec::new();
                queue.push(id);
                assert(queue@ =~= seq![id]);
                Scan { dev, queue, stats: ScanStats { files: 0, dirs: 1, errors: 0 } }
            },
        }
    }

    /// The folder to be read next.
    pub fn next_dir(&self, index: &Index) -> (r: Option<Vec<u8>>)
        requires
            index.wf(),
            self.wf(index@),
        ensures
            bytes_if(r) == read_next(self.state(index@)),
    {
        let n: usize = self.queue.len();
        if n == 0 {
            return None;
        }
        let id = self.queue[n - 1];
        assert(index@.has(self.queue@[n - 1]));
        Some(index.path_bytes(id))
    }

    /// Takes in what the next folder holds, or that it could not be read.
    pub fn enter(&mut self, index: &mut Index, items: &Option<Vec<Item>>, exclude: &Vec<Vec<u8>>)
        requires
            old(index).wf(),
            old(self).wf(old(index)@),
            old(self).queue@.len() > 0,
            old(self).stats.room(1),
            items matches Some(list) ==> old(self).stats.room(list@.len() as int) && old(
                index,
            )@.nodes.len() + list@.len() <= NO_PARENT,
        ensures
            final(index).wf(),
            final(self).wf(final(index)@),
            final(self).dev == old(self).dev,
            final(self).state(final(index)@) == scan_entered(
                old(self).state(old(index)@),
                old(self).dev,
                match *items {
                    Some(list) => Some(list@),
                    None => None,
                },
                views(exclude@),
            ),
    {
        let n: usize = self.queue.len();
        let parent = self.queue[n - 1];
        assert(old(index)@.has(self.queue@[n - 1]));
        self.queue.pop();
        let ghost start = self.state(index@);
        assert(self.wf(index@)) by {
            assert forall|i: int| 0 <= i < self.queue@.len() implies index@.has(
                #[trigger] self.queue@[i],
            ) by {
                assert(old(index)@.has(old(self).queue@[i]));
            }
        }
        match items {
            None => {
                self.stats.errors = self.stats.errors + 1;
            },
            Some(list) => {
                let ghost all = items_of(list@);
                let ghost ex = views(exclude@);
                let mut i: usize = 0;
                while i < list.len()
                    invariant
                        i <= list@.len(),
                        all == items_of(list@),
                        ex == views(exclude@),
                        index.wf(),
                        self.wf(index@),
                        self.dev == old(self).dev,
                        index@.has(parent),
                        old(self).stats.room(list@.len() as int),
                        old(index)@.nodes.len() + list@.len() <= NO_PARENT,
                        index@.nodes.len() <= old(index)@.nodes.len() + i,
                        self.stats.files <= old(self).stats.files + i,
                        self.stats.dirs <= old(self).stats.dirs + i,
                        self.stats.errors <= old(self).stats.errors + i,
                        self.state(index@) == scan_items(start, self.dev, parent, all, ex, i as nat),
                    decreases list@.len() - i,
                {
                    assert(all[i as int] == list@[i as int]@);
                    self.take_item(index, parent, &list[i], exclude);
                    i = i + 1;
                }
            },
        }
    }

    /// Takes in one entry of the folder `parent`.
    fn take_item(&mut self, index: &mut Index, parent: u32, item: &Item, exclude: &Vec<Vec<u8>>)
        requires
            old(index).wf(),
            old(self).wf(old(index)@),
            old(index)@.has(parent),
            old(self).stats.room(1),
            old(index)@.nodes.len() < NO_PARENT,
        ensures
            final(index).wf(),
            final(self).wf(final(index)@),
            final(self).dev == old(self).dev,
            final(index)@.has(parent),
            final(index)@.nodes.len() <= old(index)@.nodes.len() + 1,
            final(self).stats.files <= old(self).stats.files + 1,
            final(self).stats.dirs <= old(self).stats.dirs + 1,
            final(self).stats.errors <= old(self).stats.errors + 1,
            final(self).state(final(index)@) == scan_item(
                old(self).state(old(index)@),
                old(self).dev,
                parent,
                item@,
                views(exclude@),
            ),
    {
        let ghost v = index@;
        let ghost queue0 = self.queue@;
        match item {
            Item::Unreadable => {
                self.stats.errors = self.stats.errors + 1;
            },
            Item::Found(f) => {
                let dir = index.path_bytes(parent);
                let child = join(dir.as_slice(), f.name.as_slice());
                if has_path(exclude, child.as_slice()) {
                    return ;
                }
                if !f.is_dir {
                    index.add_new(parent, f.name.as_slice(), false, f.ino);
                    self.stats.files = self.stats.files + 1;
                } else {
                    self.stats.dirs = self.stats.dirs + 1;
                    match f.dev {
                        Some(d) => {
                            if d == self.dev {
                                let id = index.add_new(parent, f.name.as_slice(), true, f.ino);
                                self.queue.push(id);
                            } else {
                                index.insert_foreign(parent, f.name.as_slice(), true);
                            }
                        },
                        None => {
                            index.add_new(parent, f.name.as_slice(), true, f.ino);
                            self.stats.errors = self.stats.errors + 1;
                        },
                    }
                }
            },
        }
        proof {
            assert forall|i: int| 0 <= i < self.queue@.len() implies index@.has(
                #[trigger] self.queue@[i],
            ) by {
                if i < queue0.len() {
                    assert(v.has(queue0[i]));
                }
            }
        }
    }
}

// A folder that appeared at runtime.

/// Something to be taken in below `parent`.
pub struct Task {
    pub parent: u32,
    pub depth: u32,
    pub item: Item,
}

/// The same over plain values.
pub struct TaskView {
    pub parent: u32,
    pub depth: u32,
    pub item: Option<FoundView>,
}

pub open spec fn tasks_of(tasks: Seq<Task>) -> Seq<TaskView> {
    Seq::new(
        tasks.len(),
        |i: int|
            TaskView { parent: tasks[i].parent, depth: tasks[i].depth, item: tasks[i].item@ },
    )
}

/// A folder to be read: its id, and how deep it lies below the new one.
pub type Pending = Option<(u32, u32)>;

/// Takes in what is on the stack, last first, up to a folder that is to be
/// read.
pub open spec fn subtree_run(v: IndexView, stack: Seq<TaskView>, exclude: Seq<Seq<u8>>) -> (
    IndexView,
    Seq<TaskView>,
    Pending,
)
    decreases stack.len(),
{
    if stack.len() == 0 {
        (v, stack, None)
    } else {
        let t = stack.last();
        let rest = stack.drop_last();
        match t.item {
            None => subtree_run(v, rest, exclude),
            Some(f) => {
                if has_alike(exclude, joined(path(v.nodes, t.parent as int), f.name)) {
                    subtree_run(v, rest, exclude)
                } else {
                    let (after, id) = v.added(t.parent, f.name, f.is_dir, f.ino);
                    if f.is_dir && t.depth < MAX_DEPTH {
                        (after, rest, Some((id, (t.depth + 1) as u32)))
                    } else {
                        subtree_run(after, rest, exclude)
                    }
                }
            },
        }
    }
}

/// What a folder holds, on top of the stack: the first entry last.
pub open spec fn stacked(
    stack: Seq<TaskView>,
    parent: u32,
    depth: u32,
    items: Seq<Option<FoundView>>,
) -> Seq<TaskView> {
    stack + Seq::new(
        items.len(),
        |i: int| TaskView { parent, depth, item: items[items.len() - 1 - i] },
    )
}

/// A walk of the folder `id` at its start: nothing waits, and the folder itself is
/// to be read.
pub open spec fn subtree_begun(id: u32) -> (Seq<TaskView>, Option<(u32, u32)>) {
    (seq![], Some((id, 0u32)))
}

/// The folder that such a walk reads next, if there is one left.
pub open spec fn subtree_next(v: IndexView, pending: Option<(u32, u32)>) -> Option<Seq<u8>> {
    match pending {
        Some((id, _)) => Some(path(v.nodes, id as int)),
        None => None,
    }
}

/// A walk of a folder that appeared at runtime, so anything already inside it
/// (created before the event was processed) is picked up too.
pub struct Subtree {
    pub stack: Vec<Task>,
    pub pending: Option<(u32, u32)>,
}

impl Subtree {
    pub open spec fn wf(self, v: IndexView) -> bool {
        &&& forall|i: int| 0 <= i < self.stack@.len() ==> v.has((#[trigger] self.stack@[i]).parent)
        &&& self.pending matches Some((id, depth)) ==> v.has(id)
    }

    /// Starts with the folder `id`.
    pub fn start(id: u32) -> (s: Subtree)
        ensures
            (tasks_of(s.stack@), s.pending) == subtree_begun(id),
    {
        let s = Subtree { stack: Vec::new(), pending: Some((id, 0)) };
        assert(tasks_of(s.stack@) =~= Seq::<TaskView>::empty());
        s
    }

    /// The folder to be read next.
    pub fn next_dir(&self, index: &Index) -> (r: Option<Vec<u8>>)
        requires
            index.wf(),
            self.wf(index@),
        ensures
            bytes_if(r) == subtree_next(index@, self.pending),
    {
        match self.pending {
            Some((id, _)) => Some(index.path_bytes(id)),
            None => None,
        }
    }

    /// Takes in what the next folder holds, and goes on to the folder after
    /// it. One that cannot be read holds nothing.
    pub fn enter(&mut self, index: &mut Index, items: Vec<Item>, exclude: &Vec<Vec<u8>>)
        requires
            old(index).wf(),
            old(self).wf(old(index)@),
            old(self).pending is Some,
            old(index)@.nodes.len() + old(self).stack@.len() + items@.len() <= NO_PARENT,
        ensures
            final(index).wf(),
            final(self).wf(final(index)@),
            ({
                let (id, depth) = old(self).pending->Some_0;
                (final(index)@, tasks_of(final(self).stack@), final(self).pending) == subtree_run(
                    old(index)@,
                    stacked(tasks_of(old(self).stack@), id, depth, items_of(items@)),
                    views(exclude@),
                )
            }),
            final(index)@.nodes.len() + final(self).stack@.len() <= NO_PARENT,
    {
        let (id, depth) = match self.pending {
            Some(x) => x,
            None => {
                return ;
            },
        };
        let ghost given = items@;
        let ghost base = tasks_of(self.stack@);
        let ghost goal = stacked(base, id, depth, items_of(given));
        let mut list: Vec<Item> = items;
        let mut n: usize = list.len();
        while n > 0
            invariant
                n == list@.len(),
                n <= given.len(),
                list@ == given.take(n as int),
                index@.has(id),
                goal == stacked(base, id, depth, items_of(given)),
                tasks_of(self.stack@) == goal.take(base.len() + given.len() - n),
                goal.len() == base.len() + given.len(),
                forall|i: int|
                    0 <= i < self.stack@.len() ==> index@.has((#[trigger] self.stack@[i]).parent),
            decreases n,
        {
            let ghost last = given[n - 1];
            let ghost stack0 = self.stack@;
            match list.pop() {
                Some(item) => {
                    assert(item == last);
                    self.stack.push(Task { parent: id, depth, item });
                    proof {
                        let at = base.len() + given.len() - n;
                        let t = TaskView { parent: id, depth, item: last@ };
                        assert(tasks_of(self.stack@) =~= tasks_of(stack0).push(t));
                        assert(goal[at] == t) by {
                            assert(items_of(given)[n - 1] == last@);
                        }
                        assert(goal.take(at + 1) =~= goal.take(at).push(t));
                        assert forall|i: int| 0 <= i < self.stack@.len() implies index@.has(
                            (#[trigger] self.stack@[i]).parent,
                        ) by {
                            if i < stack0.len() {
                                assert(self.stack@[i] == stack0[i]);
                            }
                        }
                    }
                },
                None => {},
            }
            n = n - 1;
            assert(list@ =~= given.take(n as int));
        }
        assert(goal.take(goal.len() as int) =~= goal);
        self.pending = None;
        self.run(index, exclude);
    }

    /// Takes in what is on the stack, up to a folder that is to be read.
    fn run(&mut self, index: &mut Index, exclude: &Vec<Vec<u8>>)
        requires
            old(index).wf(),
            old(self).wf(old(index)@),
            old(self).pending is None,
            old(index)@.nodes.len() + old(self).stack@.len() <= NO_PARENT,
        ensures
            final(index).wf(),
            final(self).wf(final(index)@),
            (final(index)@, tasks_of(final(self).stack@), final(self).pending) == subtree_run(
                old(index)@,
                tasks_of(old(self).stack@),
                views(exclude@),
            ),
            final(index)@.nodes.len() + final(self).stack@.len() <= NO_PARENT,
    {
        let ghost ex = views(exclude@);
        let ghost goal = subtree_run(index@, tasks_of(self.stack@), ex);
        let mut n: usize = self.stack.len();
        while n > 0
            invariant
                n == self.stack@.len(),
                index.wf(),
                self.wf(index@),
                self.pending is None,
                ex == views(exclude@),
                index@.nodes.len() + n <= NO_PARENT,
                subtree_run(index@, tasks_of(self.stack@), ex) == goal,
                goal == subtree_run(old(index)@, tasks_of(old(self).stack@), ex),
            decreases n,
        {
            let ghost v = index@;
            let ghost stack0 = self.stack@;
            let ghost rest = tasks_of(stack0).drop_last();
            match self.stack.pop() {
                Some(t) => {
                    proof {
                        assert(t == stack0[n - 1]);
                        assert(tasks_of(self.stack@) =~= rest);
                        assert(tasks_of(stack0).last() == (TaskView {
                            parent: t.parent,
                            depth: t.depth,
                            item: t.item@,
                        }));
                        assert(v.has(stack0[n - 1].parent));
                        assert forall|i: int| 0 <= i < self.stack@.len() implies v.has(
                            (#[trigger] self.stack@[i]).parent,
                        ) by {
                            assert(self.stack@[i] == stack0[i]);
                        }
                    }
                    match t.item {
                        Item::Unreadable => {},
                        Item::Found(f) => {
                            let dir = index.path_bytes(t.parent);
                            let child = join(dir.as_slice(), f.name.as_slice());
                            if !has_path(exclude, child.as_slice()) {
                                let id = index.add(t.parent, f.name.as_slice(), f.is_dir, f.ino);
                                proof {
                                    assert(v.nodes.len() <= index@.nodes.len() <= v.nodes.len() + 1);
                                    assert forall|i: int|
                                        0 <= i < self.stack@.len() implies index@.has(
                                        (#[trigger] self.stack@[i]).parent,
                                    ) by {
                                        assert(v.has(self.stack@[i].parent));
                                    }
                                }
                                if f.is_dir && t.depth < MAX_DEPTH {
                                    self.pending = Some((id, t.depth + 1));
                                    return ;
                                }
                            }
                        },
                    }
                },
                None => {},
            }
            n = n - 1;
        }
        assert(tasks_of(self.stack@) =~= Seq::<TaskView>::empty());
    }
}

// A mount that cannot be watched.

/// Outcome of walking a mount that fanotify cannot watch.
pub enum ForeignWalk {
    /// Pre-order (parent, name, is_dir); parent indexes an earlier element, or
    /// is NO_PARENT for the mount's own children. Plus the unreadable count.
    Listed(Listing, usize),
    /// Not currently a readable mount. The caller keeps what it already has.
    Unavailable(String),
}

/// A walk of a separately mounted tree into a flat list.
pub struct Foreign {
    pub dev: u64,
    pub out: Listing,
    pub errors: usize,
    /// Folders still to be read, with their place in the list.
    pub stack: Vec<(u32, Vec<u8>)>,
    /// Nothing has been read yet.
    pub first: bool,
}

/// An element of a listing.
pub struct Line {
    pub parent: u32,
    pub name: Seq<u8>,
    pub is_dir: bool,
}

pub open spec fn lines_of(list: Seq<(u32, Vec<u8>, bool)>) -> Seq<Line> {
    Seq::new(
        list.len(),
        |i: int| Line { parent: list[i].0, name: list[i].1@, is_dir: list[i].2 },
    )
}

pub open spec fn stack_of(stack: Seq<(u32, Vec<u8>)>) -> Seq<(u32, Seq<u8>)> {
    Seq::new(stack.len(), |i: int| (stack[i].0, stack[i].1@))
}

/// The state of such a walk.
pub struct ForeignView {
    pub out: Seq<Line>,
    pub errors: nat,
    pub stack: Seq<(u32, Seq<u8>)>,
}

/// What one entry of the folder `dir` adds. What is excluded is left out; a
/// mount inside the mount is listed and not walked.
pub open spec fn foreign_item(
    s: ForeignView,
    dev: u64,
    parent: u32,
    dir: Seq<u8>,
    item: Option<FoundView>,
    exclude: Seq<Seq<u8>>,
) -> ForeignView {
    match item {
        None => ForeignView { errors: s.errors + 1, ..s },
        Some(f) => {
            let child = joined(dir, f.name);
            if has_alike(exclude, child) {
                s
            } else {
                let out = s.out.push(Line { parent, name: f.name, is_dir: f.is_dir });
                if !f.is_dir {
                    ForeignView { out, ..s }
                } else {
                    match f.dev {
                        Some(d) => if d == dev {
                            ForeignView {
                                out,
                                stack: s.stack.push((s.out.len() as u32, child)),
                                ..s
                            }
                        } else {
                            ForeignView { out, ..s }
                        },
                        None => ForeignView { out, errors: s.errors + 1, ..s },
                    }
                }
            }
        },
    }
}

/// What the first `k` entries add.
pub open spec fn foreign_items(
    s: ForeignView,
    dev: u64,
    parent: u32,
    dir: Seq<u8>,
    items: Seq<Option<FoundView>>,
    exclude: Seq<Seq<u8>>,
    k: nat,
) -> ForeignView
    decreases k,
{
    if k == 0 {
        s
    } else {
        foreign_item(
            foreign_items(s, dev, parent, dir, items, exclude, (k - 1) as nat),
            dev,
            parent,
            dir,
            items[k - 1],
            exclude,
        )
    }
}

/// `at` is the position of a folder in the list, or the top.
pub open spec fn lists_folder(walked: Seq<(u32, Vec<u8>, bool)>, at: u32) -> bool {
    at == NO_PARENT || (at < walked.len() && walked[at as int].2)
}

/// Every element of the list lies in a folder of the list, or at the top.
pub open spec fn in_folders(walked: Seq<(u32, Vec<u8>, bool)>) -> bool {
    forall|k: int| 0 <= k < walked.len() ==> lists_folder(walked, (#[trigger] walked[k]).0)
}

/// What is a folder of the list stays one when the list grows.
proof fn lemma_lists_folder(
    walked: Seq<(u32, Vec<u8>, bool)>,
    more: (u32, Vec<u8>, bool),
    at: u32,
)
    requires
        lists_folder(walked, at),
    ensures
        lists_folder(walked.push(more), at),
{
}

/// The folder of a mount that is read next, if there is one left.
pub open spec fn mount_next(s: ForeignView) -> Option<Seq<u8>> {
    if s.stack.len() == 0 {
        None
    } else {
        Some(s.stack.last().1)
    }
}

/// What a walk of a mount comes to.
pub open spec fn walk_result(f: Foreign) -> ForeignWalk {
    ForeignWalk::Listed(f.out, f.errors)
}

/// Why nothing is mounted there, if so: the device of the mount, and that of the
/// folder that holds it, must be known and must differ.
pub open spec fn mount_fault(dev: Result<u64, String>, above: Result<u64, String>) -> Option<
    Seq<char>,
> {
    match (dev, above) {
        (Err(e), _) => Some(e@),
        (Ok(_), Err(e)) => Some(e@),
        (Ok(d), Ok(a)) => if d == a {
            Some("not mounted"@)
        } else {
            None
        },
    }
}

/// After the next folder of a mount was read, or could not be: the walk, whether
/// nothing has been read yet, and whether the walk is given up.
pub open spec fn mount_entered(
    s: ForeignView,
    first: bool,
    dev: u64,
    items: Option<Seq<Item>>,
    exclude: Seq<Seq<u8>>,
) -> (ForeignView, bool, bool) {
    let (parent, dir) = s.stack.last();
    let rest = ForeignView { stack: s.stack.drop_last(), ..s };
    match items {
        Some(list) => (
            foreign_items(rest, dev, parent, dir, items_of(list), exclude, list.len()),
            false,
            false,
        ),
        None => if first {
            (rest, true, true)
        } else {
            (ForeignView { errors: rest.errors + 1, ..rest }, false, false)
        },
    }
}

impl Foreign {
    pub open spec fn state(self) -> ForeignView {
        ForeignView {
            out: lines_of(self.out@),
            errors: self.errors as nat,
            stack: stack_of(self.stack@),
        }
    }

    /// The list is in pre-order, every parent in it is a folder, and the
    /// folders to be read are in it.
    pub open spec fn wf(self) -> bool {
        &&& pre_order(self.out@)
        &&& in_folders(self.out@)
        &&& forall|i: int|
            0 <= i < self.stack@.len() ==> lists_folder(self.out@, (#[trigger] self.stack@[i]).0)
    }

    /// Starts at `path`, which must be a mount point: before anything is
    /// mounted there it is just an empty folder on the parent filesystem, and
    /// walking that would wipe the index's copy of the drive. The devices of
    /// the path and of its parent folder are handed in, or why they are not
    /// known.
    pub fn start(path: &[u8], dev: Result<u64, String>, above: Result<u64, String>) -> (r: Result<
        Foreign,
        String,
    >)
        ensures
            match (dev, above) {
                (Err(e), _) => r == Err::<Foreign, _>(e),
                (Ok(_), Err(e)) => r == Err::<Foreign, _>(e),
                (Ok(d), Ok(a)) => if d == a {
                    r matches Err(e) && e@ == "not mounted"@
                } else {
                    r matches Ok(f) && f.wf() && f.dev == d && f.first && f.state() == (
                    ForeignView {
                        out: seq![],
                        errors: 0,
                        stack: seq![(NO_PARENT, path@)],
                    })
                },
            },
            match r {
                Ok(_) => mount_fault(dev, above) is None,
                Err(e) => mount_fault(dev, above) == Some(e@),
            },
    {
        let d = match dev {
            Ok(d) => d,
            Err(e) => {
                return Err(e);
            },
        };
        let a = match above {
            Ok(a) => a,
            Err(e) => {
                return Err(e);
            },
        };
        if d == a {
            return Err("not mounted".to_owned());
        }
        let mut stack: Vec<(u32, Vec<u8>)> = Vec::new();
        stack.push((NO_PARENT, copy(path)));
        let f = Foreign { dev: d, out: Vec::new(), errors: 0, stack, first: true };
        assert(f.state().out =~= Seq::<Line>::empty());
        assert(f.state().stack =~= seq![(NO_PARENT, path@)]);
        Ok(f)
    }

    /// The folder to be read next.
    pub fn next_dir(&self) -> (r: Option<&[u8]>)
        ensures
            match r {
                Some(p) => mount_next(self.state()) == Some(p@),
                None => mount_next(self.state()) is None,
            },
    {
        let n: usize = self.stack.len();
        if n == 0 {
            return None;
        }
        Some(self.stack[n - 1].1.as_slice())
    }

    /// Takes in what the next folder holds, or why it could not be read. A
    /// mount that cannot be read at all ends the walk: a FUSE mount may be
    /// closed to the daemon, and is not reported as empty.
    pub fn enter(&mut self, items: &Result<Vec<Item>, String>, exclude: &Vec<Vec<u8>>) -> (r: Option<
        String,
    >)
        requires
            old(self).wf(),
            old(self).stack@.len() > 0,
            old(self).errors < usize::MAX,
            items matches Ok(list) ==> old(self).errors + list@.len() <= usize::MAX && old(
                self,
            ).out@.len() + list@.len() <= NO_PARENT,
        ensures
            final(self).wf(),
            final(self).dev == old(self).dev,
            r matches Some(why) ==> (*items matches Err(e) && why@ == e@),
            (final(self).state(), final(self).first, r is Some) == mount_entered(
                old(self).state(),
                old(self).first,
                old(self).dev,
                match *items {
                    Ok(list) => Some(list@),
                    Err(_) => None,
                },
                views(exclude@),
            ),
    {
        let ghost stack0 = self.stack@;
        let ghost all_stack = stack_of(stack0);
        let n: usize = self.stack.len();
        let (parent, dir) = match self.stack.pop() {
            Some(x) => x,
            None => {
                return None;
            },
        };
        proof {
            assert((parent, dir) == stack0[n - 1]);
            assert(stack_of(self.stack@) =~= all_stack.drop_last());
            assert(all_stack.last() == (parent, dir@));
            assert(lists_folder(self.out@, stack0[n - 1].0));
            assert forall|i: int| 0 <= i < self.stack@.len() implies lists_folder(
                self.out@,
                (#[trigger] self.stack@[i]).0,
            ) by {
                assert(self.stack@[i] == stack0[i]);
            }
        }
        let list = match items {
            Ok(list) => list,
            Err(e) => {
                if self.first {
                    return Some(e.clone());
                }
                self.errors = self.errors + 1;
                return None;
            },
        };
        self.first = false;
        let ghost start = self.state();
        let ghost all = items_of(list@);
        let ghost ex = views(exclude@);
        let mut i: usize = 0;
        while i < list.len()
            invariant
                i <= list@.len(),
                all == items_of(list@),
                ex == views(exclude@),
                self.wf(),
                !self.first,
                self.dev == old(self).dev,
                lists_folder(self.out@, parent),
                old(self).errors + list@.len() <= usize::MAX,
                old(self).out@.len() + list@.len() <= NO_PARENT,
                self.errors <= old(self).errors + i,
                self.out@.len() <= old(self).out@.len() + i,
                self.state() == foreign_items(
                    start,
                    self.dev,
                    parent,
                    dir@,
                    all,
                    ex,
                    i as nat,
                ),
            decreases list@.len() - i,
        {
            assert(all[i as int] == list@[i as int]@);
            self.take_item(parent, dir.as_slice(), &list[i], exclude);
            i = i + 1;
        }
        None
    }

    /// Takes in one entry of the folder `dir`.
    fn take_item(&mut self, parent: u32, dir: &[u8], item: &Item, exclude: &Vec<Vec<u8>>)
        requires
            old(self).wf(),
            lists_folder(old(self).out@, parent),
            old(self).errors < usize::MAX,
            old(self).out@.len() < NO_PARENT,
        ensures
            final(self).wf(),
            lists_folder(final(self).out@, parent),
            final(self).dev == old(self).dev,
            final(self).first == old(self).first,
            final(self).errors <= old(self).errors + 1,
            old(self).out@.len() <= final(self).out@.len() <= old(self).out@.len() + 1,
            final(self).state() == foreign_item(
                old(self).state(),
                old(self).dev,
                parent,
                dir@,
                item@,
                views(exclude@),
            ),
    {
        let ghost out0 = self.out@;
        let ghost stack0 = self.stack@;
        match item {
            Item::Unreadable => {
                self.errors = self.errors + 1;
            },
            Item::Found(f) => {
                let child = join(dir, f.name.as_slice());
                if has_path(exclude, child.as_slice()) {
                    return ;
                }
                let idx: u32 = self.out.len() as u32;
                self.out.push((parent, copy(f.name.as_slice()), f.is_dir));
                proof {
                    let line = self.out@.last();
                    assert(self.out@ =~= out0.push(line));
                    lemma_lists_folder(out0, line, parent);
                    assert forall|k: int| 0 <= k < self.out@.len() implies lists_folder(
                        self.out@,
                        (#[trigger] self.out@[k]).0,
                    ) by {
                        if k < out0.len() {
                            assert(self.out@[k] == out0[k]);
                            lemma_lists_folder(out0, line, out0[k].0);
                        }
                    }
                    assert forall|i: int| 0 <= i < stack0.len() implies lists_folder(
                        self.out@,
                        (#[trigger] stack0[i]).0,
                    ) by {
                        lemma_lists_folder(out0, line, stack0[i].0);
                    }
                    assert(lines_of(self.out@) =~= lines_of(out0).push(
                        Line { parent, name: f.name@, is_dir: f.is_dir },
                    ));
                    assert forall|k: int| 0 <= k < self.out@.len() implies (
                    #[trigger] self.out@[k]).0 == NO_PARENT || self.out@[k].0 < k by {
                        if k < out0.len() {
                            assert(self.out@[k] == out0[k]);
                        }
                    }
                }
                if f.is_dir {
                    match f.dev {
                        Some(d) => {
                            if d == self.dev {
                                let ghost child0 = child@;
                                self.stack.push((idx, child));
                                assert(stack_of(self.stack@) =~= stack_of(stack0).push(
                                    (idx, child0),
                                ));
                            }
                        },
                        None => {
                            self.errors = self.errors + 1;
                        },
                    }
                }
            },
        }
        proof {
            assert forall|i: int| 0 <= i < self.stack@.len() implies lists_folder(
                self.out@,
                (#[trigger] self.stack@[i]).0,
            ) by {
                if i < stack0.len() {
                    assert(self.stack@[i] == stack0[i]);
                }
            }
        }
    }

    /// The whole list, once no folder is left: in pre-order, and every parent
    /// in it is a folder.
    pub fn finish(self) -> (w: ForeignWalk)
        requires
            self.wf(),
            self.stack@.len() == 0,
        ensures
            w == walk_result(self),
            pre_order(self.out@),
            in_folders(self.out@),
    {
        ForeignWalk::Listed(self.out, self.errors)
    }
}

// What a walk promises.

proof fn lemma_scan_grows(
    s: ScanView,
    dev: u64,
    parent: u32,
    items: Seq<Option<FoundView>>,
    exclude: Seq<Seq<u8>>,
    k: nat,
)
    requires
        parents_first(s.index.nodes),
        s.index.has(parent),
        k <= items.len(),
        s.index.nodes.len() + k <= NO_PARENT,
    ensures
        ({
            let t = scan_items(s, dev, parent, items, exclude, k);
            &&& parents_first(t.index.nodes)
            &&& s.index.nodes.len() <= t.index.nodes.len() <= s.index.nodes.len() + k
            &&& forall|i: int|
                0 <= i < s.index.nodes.len() ==> #[trigger] t.index.nodes[i] == s.index.nodes[i]
            &&& forall|i: int|
                s.index.nodes.len() <= i < t.index.nodes.len() ==> (
                #[trigger] t.index.nodes[i]).parent == parent && t.index.nodes[i].alive
                    && !has_alike(exclude, path(t.index.nodes, i))
        }),
    decreases k,
{
    if k > 0 {
        let m = (k - 1) as nat;
        lemma_scan_grows(s, dev, parent, items, exclude, m);
        let a = scan_items(s, dev, parent, items, exclude, m);
        let b = scan_items(s, dev, parent, items, exclude, k);
        let n = a.index.nodes.len() as int;
        if b.index.nodes.len() > n {
            let node = b.index.nodes[n];
            assert(b.index.nodes =~= a.index.nodes.push(node));
            assert forall|i: int| 0 <= i < b.index.nodes.len() implies (
            #[trigger] b.index.nodes[i]).parent == NO_PARENT || b.index.nodes[i].parent < i by {
                if i < n {
                    assert(b.index.nodes[i] == a.index.nodes[i]);
                }
            }
            assert forall|i: int| 0 <= i < n implies #[trigger] path(b.index.nodes, i) == path(
                a.index.nodes,
                i,
            ) by {
                lemma_push_path(a.index.nodes, node, i);
            }
            assert forall|i: int| s.index.nodes.len() <= i < b.index.nodes.len() implies (
            #[trigger] b.index.nodes[i]).parent == parent && b.index.nodes[i].alive
                && !has_alike(exclude, path(b.index.nodes, i)) by {
                if i < n {
                    assert(b.index.nodes[i] == a.index.nodes[i]);
                    assert(path(b.index.nodes, i) == path(a.index.nodes, i));
                } else {
                    assert(path(b.index.nodes, parent as int) == path(
                        a.index.nodes,
                        parent as int,
                    ));
                    assert(path(b.index.nodes, i) == joined(
                        path(a.index.nodes, parent as int),
                        node.name,
                    ));
                }
            }
        }
    }
}

/// Taking in what a folder holds changes no entry that was there, puts every
/// new one into that folder, and leaves out whatever is excluded.
pub proof fn excluded_folders_are_left_out(
    s: ScanView,
    dev: u64,
    parent: u32,
    items: Seq<Option<FoundView>>,
    exclude: Seq<Seq<u8>>,
)
    requires
        parents_first(s.index.nodes),
        s.index.has(parent),
        s.index.nodes.len() + items.len() <= NO_PARENT,
    ensures
        ({
            let t = scan_items(s, dev, parent, items, exclude, items.len());
            &&& forall|i: int|
                0 <= i < s.index.nodes.len() ==> #[trigger] t.index.nodes[i] == s.index.nodes[i]
            &&& forall|i: int|
                s.index.nodes.len() <= i < t.index.nodes.len() ==> (
                #[trigger] t.index.nodes[i]).parent == parent && t.index.nodes[i].alive
                    && !has_alike(exclude, path(t.index.nodes, i))
        }),
{
    lemma_scan_grows(s, dev, parent, items, exclude, items.len());
}

/// Only folders on the walked device, or whose device is not known, are found
/// by inode number: an inode that stands for a new entry came with one.
pub proof fn foreign_folders_take_no_inode(
    s: ScanView,
    dev: u64,
    parent: u32,
    items: Seq<Option<FoundView>>,
    exclude: Seq<Seq<u8>>,
    k: nat,
    ino: u64,
)
    requires
        k <= items.len(),
    ensures
        ({
            let t = scan_items(s, dev, parent, items, exclude, k).index;
            t.dir_ino.contains_key(ino) && !(s.index.dir_ino.contains_key(ino)
                && s.index.dir_ino[ino] == t.dir_ino[ino]) ==> exists|i: int|
                0 <= i < k && ((#[trigger] items[i]) matches Some(f) && f.is_dir && f.ino == ino
                    && (f.dev == Some(dev) || f.dev is None))
        }),
    decreases k,
{
    if k > 0 {
        foreign_folders_take_no_inode(s, dev, parent, items, exclude, (k - 1) as nat, ino);
        let a = scan_items(s, dev, parent, items, exclude, (k - 1) as nat).index;
        let b = scan_items(s, dev, parent, items, exclude, k).index;
        if b.dir_ino.contains_key(ino) {
            if a.dir_ino.contains_key(ino) && a.dir_ino[ino] == b.dir_ino[ino] {
            } else {
                assert(items[k - 1] is Some);
            }
        }
    }
}

/// An entry of that name is alive in the folder.
pub open spec fn listed(nodes: Seq<Node>, parent: u32, name: Seq<u8>) -> bool {
    exists|id: int|
        0 <= id < nodes.len() && (#[trigger] nodes[id]).parent == parent && nodes[id].name == name
            && nodes[id].alive
}

/// Whatever a folder holds is in the index once it is taken in, unless it is
/// excluded; and a folder on the same device is walked in its turn.
pub proof fn everything_found_is_indexed(
    s: ScanView,
    dev: u64,
    parent: u32,
    items: Seq<Option<FoundView>>,
    exclude: Seq<Seq<u8>>,
    i: int,
)
    requires
        parents_first(s.index.nodes),
        s.index.has(parent),
        s.index.nodes.len() + items.len() <= NO_PARENT,
        0 <= i < items.len(),
        items[i] matches Some(f) && !has_alike(
            exclude,
            joined(path(s.index.nodes, parent as int), f.name),
        ),
    ensures
        ({
            let t = scan_items(s, dev, parent, items, exclude, items.len());
            let f = items[i]->Some_0;
            &&& listed(t.index.nodes, parent, f.name)
            &&& f.is_dir && f.dev == Some(dev) ==> exists|q: int|
                0 <= q < t.queue.len() && t.index.nodes[(#[trigger] t.queue[q]) as int].parent
                    == parent && t.index.nodes[t.queue[q] as int].name == f.name
        }),
{
    lemma_found_indexed(s, dev, parent, items, exclude, i, items.len());
}

proof fn lemma_found_indexed(
    s: ScanView,
    dev: u64,
    parent: u32,
    items: Seq<Option<FoundView>>,
    exclude: Seq<Seq<u8>>,
    i: int,
    k: nat,
)
    requires
        parents_first(s.index.nodes),
        s.index.has(parent),
        s.index.nodes.len() + k <= NO_PARENT,
        0 <= i < k <= items.len(),
        items[i] matches Some(f) && !has_alike(
            exclude,
            joined(path(s.index.nodes, parent as int), f.name),
        ),
    ensures
        ({
            let t = scan_items(s, dev, parent, items, exclude, k);
            let f = items[i]->Some_0;
            &&& listed(t.index.nodes, parent, f.name)
            &&& f.is_dir && f.dev == Some(dev) ==> exists|q: int|
                0 <= q < t.queue.len() && t.index.nodes[(#[trigger] t.queue[q]) as int].parent
                    == parent && t.index.nodes[t.queue[q] as int].name == f.name && t.queue[q]
                    < t.index.nodes.len()
        }),
    decreases k,
{
    let m = (k - 1) as nat;
    let f = items[i]->Some_0;
    let a = scan_items(s, dev, parent, items, exclude, m);
    let b = scan_items(s, dev, parent, items, exclude, k);
    lemma_scan_grows(s, dev, parent, items, exclude, m);
    let n = a.index.nodes.len() as int;
    if i == m {
        lemma_prefix_path(s.index.nodes, a.index.nodes, parent as int);
        assert(b.index.nodes[n].name == f.name);
        if f.is_dir && f.dev == Some(dev) {
            let q = a.queue.len() as int;
            assert(b.queue[q] == n as u32);
        }
    } else {
        lemma_found_indexed(s, dev, parent, items, exclude, i, m);
        let id = choose|id: int|
            0 <= id < a.index.nodes.len() && (#[trigger] a.index.nodes[id]).parent == parent
                && a.index.nodes[id].name == f.name && a.index.nodes[id].alive;
        assert(b.index.nodes[id] == a.index.nodes[id]);
        if f.is_dir && f.dev == Some(dev) {
            let q = choose|q: int|
                0 <= q < a.queue.len() && a.index.nodes[(#[trigger] a.queue[q]) as int].parent
                    == parent && a.index.nodes[a.queue[q] as int].name == f.name && a.queue[q]
                    < a.index.nodes.len();
            assert(b.queue[q] == a.queue[q]);
        }
    }
}

/// Entries that come later change no path.
proof fn lemma_prefix_path(a: Seq<Node>, b: Seq<Node>, id: int)
    requires
        parents_first(a),
        0 <= id < a.len() <= b.len(),
        forall|i: int| 0 <= i < a.len() ==> #[trigger] b[i] == a[i],
    ensures
        path(b, id) == path(a, id),
    decreases id,
{
    assert(b[id] == a[id]);
    if a[id].parent != NO_PARENT {
        lemma_prefix_path(a, b, a[id].parent as int);
    }
}

/// What `add` keeps, and what it brings.
proof fn lemma_added(v: IndexView, parent: u32, name: Seq<u8>, is_dir: bool, ino: u64)
    requires
        parents_first(v.nodes),
        v.has(parent),
        v.nodes.len() < NO_PARENT,
    ensures
        ({
            let w = v.added(parent, name, is_dir, ino).0.nodes;
            &&& parents_first(w)
            &&& v.nodes.len() <= w.len() <= v.nodes.len() + 1
            &&& listed(w, parent, name)
            &&& forall|i: int|
                0 <= i < v.nodes.len() ==> (#[trigger] w[i]).parent == v.nodes[i].parent
                    && w[i].name == v.nodes[i].name && (v.nodes[i].alive ==> w[i].alive)
            &&& forall|i: int| 0 <= i < v.nodes.len() ==> #[trigger] path(w, i) == path(v.nodes, i)
        }),
{
    let (after, id) = v.added(parent, name, is_dir, ino);
    let w = after.nodes;
    match v.any_child(parent, name) {
        Some(k) => {
            lemma_child_exists(v, parent, name, k);
            assert(w[k as int].parent == parent && w[k as int].name == name && w[k as int].alive);
            assert(same_shape(v.nodes, w));
            assert forall|i: int| 0 <= i < v.nodes.len() implies #[trigger] path(w, i) == path(
                v.nodes,
                i,
            ) by {
                lemma_same_shape_path(v.nodes, w, i);
            }
        },
        None => {
            let node = Node { parent, name, is_dir, alive: true };
            assert(w =~= v.nodes.push(node));
            assert(w[id as int] == node);
            assert forall|i: int| 0 <= i < v.nodes.len() implies #[trigger] path(w, i) == path(
                v.nodes,
                i,
            ) by {
                lemma_push_path(v.nodes, node, i);
            }
        },
    }
}

/// A folder that appears is taken in whole: of what has been read, everything
/// is in the index, still waiting, unreadable, or excluded.
pub proof fn new_folders_are_taken_in(
    v: IndexView,
    stack: Seq<TaskView>,
    exclude: Seq<Seq<u8>>,
)
    requires
        parents_first(v.nodes),
        v.nodes.len() + stack.len() <= NO_PARENT,
        forall|i: int| 0 <= i < stack.len() ==> v.has((#[trigger] stack[i]).parent),
    ensures
        ({
            let (w, rest, pending) = subtree_run(v, stack, exclude);
            &&& rest.len() <= stack.len() && rest == stack.take(rest.len() as int)
            &&& pending is None ==> rest.len() == 0
            &&& parents_first(w.nodes)
            &&& v.nodes.len() <= w.nodes.len() <= v.nodes.len() + stack.len() - rest.len()
            &&& forall|i: int|
                0 <= i < v.nodes.len() ==> (#[trigger] w.nodes[i]).parent == v.nodes[i].parent
                    && w.nodes[i].name == v.nodes[i].name && (v.nodes[i].alive
                    ==> w.nodes[i].alive)
            &&& forall|i: int|
                rest.len() <= i < stack.len() && ((#[trigger] stack[i]).item matches Some(f)
                    && !has_alike(
                    exclude,
                    joined(path(v.nodes, stack[i].parent as int), f.name),
                )) ==> listed(w.nodes, stack[i].parent, stack[i].item->Some_0.name)
        }),
    decreases stack.len(),
{
    let (w, rest, pending) = subtree_run(v, stack, exclude);
    if stack.len() == 0 {
        assert(rest =~= stack.take(0));
    } else {
        let t = stack.last();
        let less = stack.drop_last();
        let last = stack.len() - 1;
        assert(stack[last] == t);
        assert forall|i: int| 0 <= i < less.len() implies v.has((#[trigger] less[i]).parent) by {
            assert(less[i] == stack[i]);
        }
        let mid = match t.item {
            None => v,
            Some(f) => if has_alike(exclude, joined(path(v.nodes, t.parent as int), f.name)) {
                v
            } else {
                v.added(t.parent, f.name, f.is_dir, f.ino).0
            },
        };
        let taken = t.item matches Some(f) && !has_alike(
            exclude,
            joined(path(v.nodes, t.parent as int), f.name),
        );
        if taken {
            let f = t.item->Some_0;
            lemma_added(v, t.parent, f.name, f.is_dir, f.ino);
        }
        if taken && t.item->Some_0.is_dir && t.depth < MAX_DEPTH {
            assert(rest == less);
            assert(less =~= stack.take(less.len() as int));
        } else {
            assert forall|i: int| 0 <= i < less.len() implies mid.has(
                (#[trigger] less[i]).parent,
            ) by {
                assert(v.has(less[i].parent));
            }
            new_folders_are_taken_in(mid, less, exclude);
            assert(less.take(rest.len() as int) =~= stack.take(rest.len() as int));
            assert forall|i: int| 0 <= i < v.nodes.len() implies (#[trigger] w.nodes[i]).parent
                == v.nodes[i].parent && w.nodes[i].name == v.nodes[i].name && (v.nodes[i].alive
                ==> w.nodes[i].alive) by {
                assert(mid.nodes[i].parent == v.nodes[i].parent);
            }
            assert forall|i: int|
                rest.len() <= i < stack.len() && ((#[trigger] stack[i]).item matches Some(f)
                    && !has_alike(
                    exclude,
                    joined(path(v.nodes, stack[i].parent as int), f.name),
                )) implies listed(w.nodes, stack[i].parent, stack[i].item->Some_0.name) by {
                if i < last {
                    assert(less[i] == stack[i]);
                    assert(path(mid.nodes, stack[i].parent as int) == path(
                        v.nodes,
                        stack[i].parent as int,
                    ));
                } else {
                    let f = t.item->Some_0;
                    let id = choose|id: int|
                        0 <= id < mid.nodes.len() && (#[trigger] mid.nodes[id]).parent == t.parent
                            && mid.nodes[id].name == f.name && mid.nodes[id].alive;
                    assert(w.nodes[id].parent == mid.nodes[id].parent);
                }
            }
        }
    }
}

/// Whatever a mount holds is in its listing once it is read, unless it is
/// excluded; and a folder of the same mount is read in its turn.
pub proof fn mounts_are_listed_whole(
    s: ForeignView,
    dev: u64,
    parent: u32,
    dir: Seq<u8>,
    items: Seq<Option<FoundView>>,
    exclude: Seq<Seq<u8>>,
    i: int,
    k: nat,
)
    requires
        0 <= i < k <= items.len(),
        items[i] matches Some(f) && !has_alike(exclude, joined(dir, f.name)),
    ensures
        ({
            let t = foreign_items(s, dev, parent, dir, items, exclude, k);
            let f = items[i]->Some_0;
            &&& t.out.contains(Line { parent, name: f.name, is_dir: f.is_dir })
            &&& f.is_dir && f.dev == Some(dev) ==> exists|q: int|
                0 <= q < t.stack.len() && (#[trigger] t.stack[q]).1 == joined(dir, f.name)
        }),
    decreases k,
{
    let m = (k - 1) as nat;
    let f = items[i]->Some_0;
    let line = Line { parent, name: f.name, is_dir: f.is_dir };
    let a = foreign_items(s, dev, parent, dir, items, exclude, m);
    let b = foreign_items(s, dev, parent, dir, items, exclude, k);
    if i == m {
        assert(b.out[a.out.len() as int] == line);
        if f.is_dir && f.dev == Some(dev) {
            assert(b.stack[a.stack.len() as int].1 == joined(dir, f.name));
        }
    } else {
        mounts_are_listed_whole(s, dev, parent, dir, items, exclude, i, m);
        let j = choose|j: int| 0 <= j < a.out.len() && a.out[j] == line;
        assert(b.out[j] == line);
        if f.is_dir && f.dev == Some(dev) {
            let q = choose|q: int|
                0 <= q < a.stack.len() && (#[trigger] a.stack[q]).1 == joined(dir, f.name);
            assert(b.stack[q] == a.stack[q]);
        }
    }
}

} // verus!
