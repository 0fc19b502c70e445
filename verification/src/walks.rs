//! What walks bring into an index, entry by entry.

use vstd::prelude::*;
use crate::component::has_alike;
use crate::index::IndexView;
use crate::tree::{lemma_push_path, parents_first, path, Node, NO_PARENT};
use crate::updates::{adding_changes_one_entry, lemma_child_exists};
use crate::walk::{
    foreign_item, foreign_items, items_of, joined, mount_entered, mount_fault, mount_next,
    read_next, scan_begun, scan_entered, scan_item, scan_items, stacked, subtree_begun,
    subtree_next, subtree_run, walk_result, Foreign, ForeignView, ForeignWalk, Item, Line, ScanView,
    TaskView,
};

verus! {

/// The path of `name` in the folder at `dir`.
pub open spec fn lies_at(dir: Seq<u8>, name: Seq<u8>) -> Seq<u8> {
    if dir.len() > 0 && dir.last() == 0x2f {
        dir + name
    } else {
        dir + seq![0x2f] + name
    }
}

/// The item is an entry that is not excluded.
pub open spec fn taken(item: Item, dir: Seq<u8>, exclude: Seq<Seq<u8>>) -> bool {
    match item {
        Item::Found(f) => !has_alike(exclude, lies_at(dir, f.name@)),
        Item::Unreadable => false,
    }
}

/// The entries that the first `k` items make: each with its own name and kind,
/// alive, in the folder that was read; nothing for what is excluded or could
/// not be read.
pub open spec fn entries_made(
    items: Seq<Item>,
    parent: u32,
    dir: Seq<u8>,
    exclude: Seq<Seq<u8>>,
    k: nat,
) -> Seq<Node>
    decreases k,
{
    if k == 0 {
        seq![]
    } else {
        let before = entries_made(items, parent, dir, exclude, (k - 1) as nat);
        match items[k - 1] {
            Item::Found(f) => if taken(items[k - 1], dir, exclude) {
                before.push(Node { parent, name: f.name@, is_dir: f.is_dir, alive: true })
            } else {
                before
            },
            Item::Unreadable => before,
        }
    }
}

/// Of the first `k` items, how many are taken in as files.
pub open spec fn files_among(items: Seq<Item>, dir: Seq<u8>, exclude: Seq<Seq<u8>>, k: nat) -> nat
    decreases k,
{
    if k == 0 {
        0
    } else {
        files_among(items, dir, exclude, (k - 1) as nat) + (match items[k - 1] {
            Item::Found(f) => if taken(items[k - 1], dir, exclude) && !f.is_dir {
                1nat
            } else {
                0
            },
            Item::Unreadable => 0,
        })
    }
}

/// Of the first `k` items, how many are taken in as folders.
pub open spec fn folders_among(
    items: Seq<Item>,
    dir: Seq<u8>,
    exclude: Seq<Seq<u8>>,
    k: nat,
) -> nat
    decreases k,
{
    if k == 0 {
        0
    } else {
        folders_among(items, dir, exclude, (k - 1) as nat) + (match items[k - 1] {
            Item::Found(f) => if taken(items[k - 1], dir, exclude) && f.is_dir {
                1nat
            } else {
                0
            },
            Item::Unreadable => 0,
        })
    }
}

/// Of the first `k` items, how many could not be read, or are folders whose
/// device could not be asked.
pub open spec fn faults_among(
    items: Seq<Item>,
    dir: Seq<u8>,
    exclude: Seq<Seq<u8>>,
    k: nat,
) -> nat
    decreases k,
{
    if k == 0 {
        0
    } else {
        faults_among(items, dir, exclude, (k - 1) as nat) + (match items[k - 1] {
            Item::Found(f) => if taken(items[k - 1], dir, exclude) && f.is_dir && f.dev is None {
                1nat
            } else {
                0
            },
            Item::Unreadable => 1,
        })
    }
}

/// The folders among the first `k` items that are on the device `dev`, by the
/// position of the entry each makes behind `base`.
pub open spec fn folders_to_read(
    items: Seq<Item>,
    dev: u64,
    parent: u32,
    dir: Seq<u8>,
    exclude: Seq<Seq<u8>>,
    base: nat,
    k: nat,
) -> Seq<u32>
    decreases k,
{
    if k == 0 {
        seq![]
    } else {
        let m = (k - 1) as nat;
        let before = folders_to_read(items, dev, parent, dir, exclude, base, m);
        match items[k - 1] {
            Item::Found(f) => if taken(items[k - 1], dir, exclude) && f.is_dir && f.dev == Some(
                dev,
            ) {
                before.push((base + entries_made(items, parent, dir, exclude, m).len()) as u32)
            } else {
                before
            },
            Item::Unreadable => before,
        }
    }
}

/// Taking in a folder adds one living entry for each thing that was found and
/// is not excluded, in order, with its own name and kind, and changes no other
/// entry. Files, folders and faults are counted as such. Just the folders on
/// the walked device are read in their turn.
pub proof fn folders_are_taken_in_whole(
    s: ScanView,
    dev: u64,
    parent: u32,
    items: Seq<Item>,
    exclude: Seq<Seq<u8>>,
    k: nat,
)
    requires
        parents_first(s.index.nodes),
        s.index.has(parent),
        k <= items.len(),
        s.index.nodes.len() + k <= NO_PARENT,
        s.stats.room(k as int),
    ensures
        ({
            let t = scan_items(s, dev, parent, items_of(items), exclude, k);
            let dir = path(s.index.nodes, parent as int);
            &&& t.index.nodes == s.index.nodes + entries_made(items, parent, dir, exclude, k)
            &&& entries_made(items, parent, dir, exclude, k).len() <= k
            &&& t.index.root == s.index.root
            &&& t.stats.files == s.stats.files + files_among(items, dir, exclude, k)
            &&& t.stats.dirs == s.stats.dirs + folders_among(items, dir, exclude, k)
            &&& t.stats.errors == s.stats.errors + faults_among(items, dir, exclude, k)
            &&& files_among(items, dir, exclude, k) <= k
            &&& folders_among(items, dir, exclude, k) <= k
            &&& faults_among(items, dir, exclude, k) <= k
            &&& t.queue == s.queue + folders_to_read(
                items,
                dev,
                parent,
                dir,
                exclude,
                s.index.nodes.len(),
                k,
            )
        }),
    decreases k,
{
    let dir = path(s.index.nodes, parent as int);
    let made = entries_made(items, parent, dir, exclude, k);
    if k == 0 {
        assert(s.index.nodes + made =~= s.index.nodes);
        assert(s.queue + Seq::<u32>::empty() =~= s.queue);
    } else {
        let m = (k - 1) as nat;
        folders_are_taken_in_whole(s, dev, parent, items, exclude, m);
        let a = scan_items(s, dev, parent, items_of(items), exclude, m);
        let b = scan_items(s, dev, parent, items_of(items), exclude, k);
        let before = entries_made(items, parent, dir, exclude, m);
        lemma_more_path(s.index.nodes, before, parent as int);
        assert(items_of(items)[k - 1] == items[k - 1]@);
        assert(b.index.nodes =~= s.index.nodes + made);
        assert(b.queue =~= s.queue + folders_to_read(
            items,
            dev,
            parent,
            dir,
            exclude,
            s.index.nodes.len(),
            k,
        ));
    }
}

/// Entries that come later change no path.
proof fn lemma_more_path(nodes: Seq<Node>, more: Seq<Node>, id: int)
    requires
        0 <= id < nodes.len(),
    ensures
        path(nodes + more, id) == path(nodes, id),
    decreases more.len(),
{
    if more.len() == 0 {
        assert(nodes + more =~= nodes);
    } else {
        lemma_more_path(nodes, more.drop_last(), id);
        assert(nodes + more =~= (nodes + more.drop_last()).push(more.last()));
        lemma_push_path(nodes + more.drop_last(), more.last(), id);
    }
}

/// Every thing found and not excluded is a living entry of the folder, of the
/// kind that was found; and every new entry stems from such a thing.
pub proof fn entries_are_of_the_kind_found(
    items: Seq<Item>,
    parent: u32,
    dir: Seq<u8>,
    exclude: Seq<Seq<u8>>,
    k: nat,
)
    requires
        k <= items.len(),
    ensures
        forall|i: int|
            0 <= i < k && taken(#[trigger] items[i], dir, exclude) ==> (items[i] matches Item::Found(
                f,
            ) && entries_made(items, parent, dir, exclude, k).contains(
                Node { parent, name: f.name@, is_dir: f.is_dir, alive: true },
            )),
        forall|j: int|
            0 <= j < entries_made(items, parent, dir, exclude, k).len() ==> exists|i: int|
                0 <= i < k && taken(#[trigger] items[i], dir, exclude) && (
                items[i] matches Item::Found(f) && #[trigger] entries_made(
                    items,
                    parent,
                    dir,
                    exclude,
                    k,
                )[j] == (Node { parent, name: f.name@, is_dir: f.is_dir, alive: true })),
    decreases k,
{
    let made = entries_made(items, parent, dir, exclude, k);
    if k > 0 {
        let m = (k - 1) as nat;
        entries_are_of_the_kind_found(items, parent, dir, exclude, m);
        let before = entries_made(items, parent, dir, exclude, m);
        assert forall|i: int| 0 <= i < k && taken(#[trigger] items[i], dir, exclude) implies (
        items[i] matches Item::Found(f) && made.contains(
            Node { parent, name: f.name@, is_dir: f.is_dir, alive: true },
        )) by {
            if let Item::Found(f) = items[i] {
                let node = Node { parent, name: f.name@, is_dir: f.is_dir, alive: true };
                if i < m {
                    assert(before.contains(node));
                    let j = choose|j: int| 0 <= j < before.len() && before[j] == node;
                    assert(made[j] == node);
                } else {
                    assert(made[before.len() as int] == node);
                }
            }
        }
        assert forall|j: int| 0 <= j < made.len() implies exists|i: int|
            0 <= i < k && taken(#[trigger] items[i], dir, exclude) && (items[i] matches Item::Found(
                f,
            ) && #[trigger] made[j] == (Node {
                parent,
                name: f.name@,
                is_dir: f.is_dir,
                alive: true,
            })) by {
            if j < before.len() {
                assert(before[j] == made[j]);
                let i = choose|i: int|
                    0 <= i < m && taken(#[trigger] items[i], dir, exclude) && (
                    items[i] matches Item::Found(f) && before[j] == (Node {
                        parent,
                        name: f.name@,
                        is_dir: f.is_dir,
                        alive: true,
                    }));
                assert(taken(items[i], dir, exclude));
            } else {
                assert(taken(items[k - 1], dir, exclude));
            }
        }
    }
}

/// Folders on the walked device, and those whose device could not be asked, are
/// known by their inode as soon as they are taken in. Nothing else is: no file,
/// and no folder of another device.
pub proof fn folders_are_known_by_inode(
    s: ScanView,
    dev: u64,
    parent: u32,
    items: Seq<Item>,
    exclude: Seq<Seq<u8>>,
    k: nat,
)
    requires
        parents_first(s.index.nodes),
        s.index.has(parent),
        k < items.len(),
        s.index.nodes.len() + k < NO_PARENT,
        s.stats.room(k as int + 1),
    ensures
        ({
            let a = scan_items(s, dev, parent, items_of(items), exclude, k).index;
            let b = scan_items(s, dev, parent, items_of(items), exclude, k + 1).index;
            let dir = path(s.index.nodes, parent as int);
            match items[k as int] {
                Item::Found(f) => if taken(items[k as int], dir, exclude) && f.is_dir && (f.dev
                    == Some(dev) || f.dev is None) {
                    b.dir_ino == a.dir_ino.insert(f.ino, a.nodes.len() as u32)
                } else {
                    b.dir_ino == a.dir_ino
                },
                Item::Unreadable => b.dir_ino == a.dir_ino,
            }
        }),
{
    let dir = path(s.index.nodes, parent as int);
    folders_are_taken_in_whole(s, dev, parent, items, exclude, k);
    let before = entries_made(items, parent, dir, exclude, k);
    lemma_more_path(s.index.nodes, before, parent as int);
    assert(items_of(items)[k as int] == items[k as int]@);
}

// A folder that appeared at runtime.

/// What a folder holds waits in the order in which it was read, in front of
/// what was waiting before.
pub proof fn what_was_read_comes_next(
    stack: Seq<TaskView>,
    parent: u32,
    depth: u32,
    items: Seq<Item>,
    i: int,
)
    requires
        0 <= i < items.len(),
    ensures
        ({
            let all = stacked(stack, parent, depth, items_of(items));
            let t = all[all.len() - 1 - i];
            &&& all.len() == stack.len() + items.len()
            &&& all.take(stack.len() as int) == stack
            &&& t.parent == parent && t.depth == depth
            &&& match items[i] {
                Item::Found(f) => t.item matches Some(g) && g.name == f.name@ && g.is_dir
                    == f.is_dir && g.ino == f.ino && g.dev == f.dev,
                Item::Unreadable => t.item is None,
            }
        }),
{
    let all = stacked(stack, parent, depth, items_of(items));
    assert(all.take(stack.len() as int) =~= stack);
    assert(items_of(items)[i] == items[i]@);
}

/// The next thing that waits is taken in, unless it is excluded or could not be
/// read: afterwards a living entry of its name and kind stands in its folder,
/// and no other entry has changed. A folder less than 64 levels down is read
/// next; otherwise the rest goes on.
pub proof fn waiting_entries_are_taken_in(
    v: IndexView,
    rest: Seq<TaskView>,
    t: TaskView,
    exclude: Seq<Seq<u8>>,
)
    requires
        parents_first(v.nodes),
        v.nodes.len() < NO_PARENT,
        v.has(t.parent),
    ensures
        t.item is None ==> subtree_run(v, rest.push(t), exclude) == subtree_run(v, rest, exclude),
        t.item matches Some(f) ==> if has_alike(
            exclude,
            lies_at(path(v.nodes, t.parent as int), f.name),
        ) {
            subtree_run(v, rest.push(t), exclude) == subtree_run(v, rest, exclude)
        } else {
            let w = v.added(t.parent, f.name, f.is_dir, f.ino).0;
            let id = v.added(t.parent, f.name, f.is_dir, f.ino).1;
            &&& w.has(id)
            &&& w.nodes[id as int] == (Node {
                parent: t.parent,
                name: f.name,
                is_dir: f.is_dir,
                alive: true,
            })
            &&& forall|i: int|
                0 <= i < v.nodes.len() && i != id ==> #[trigger] w.nodes[i] == v.nodes[i]
            &&& f.is_dir && t.depth < 64 ==> subtree_run(v, rest.push(t), exclude) == (
                w,
                rest,
                Some((id, (t.depth + 1) as u32)),
            )
            &&& !f.is_dir || t.depth >= 64 ==> subtree_run(v, rest.push(t), exclude)
                == subtree_run(w, rest, exclude)
        },
        subtree_run(v, seq![], exclude) == (v, Seq::<TaskView>::empty(), None::<(u32, u32)>),
{
    let all = rest.push(t);
    assert(all.drop_last() =~= rest);
    assert(all.last() == t);
    if let Some(f) = t.item {
        adding_changes_one_entry(v, t.parent, f.name, f.is_dir, f.ino);
    }
}

// A mount.

/// The lines that the first `k` items make.
pub open spec fn lines_made(
    items: Seq<Item>,
    parent: u32,
    dir: Seq<u8>,
    exclude: Seq<Seq<u8>>,
    k: nat,
) -> Seq<Line>
    decreases k,
{
    if k == 0 {
        seq![]
    } else {
        let before = lines_made(items, parent, dir, exclude, (k - 1) as nat);
        match items[k - 1] {
            Item::Found(f) => if taken(items[k - 1], dir, exclude) {
                before.push(Line { parent, name: f.name@, is_dir: f.is_dir })
            } else {
                before
            },
            Item::Unreadable => before,
        }
    }
}

/// The folders among the first `k` items that are on the device `dev`, each
/// with the position of its line behind `base` and its path.
pub open spec fn mount_folders(
    items: Seq<Item>,
    dev: u64,
    parent: u32,
    dir: Seq<u8>,
    exclude: Seq<Seq<u8>>,
    base: nat,
    k: nat,
) -> Seq<(u32, Seq<u8>)>
    decreases k,
{
    if k == 0 {
        seq![]
    } else {
        let m = (k - 1) as nat;
        let before = mount_folders(items, dev, parent, dir, exclude, base, m);
        match items[k - 1] {
            Item::Found(f) => if taken(items[k - 1], dir, exclude) && f.is_dir && f.dev == Some(
                dev,
            ) {
                before.push(
                    (
                        (base + lines_made(items, parent, dir, exclude, m).len()) as u32,
                        lies_at(dir, f.name@),
                    ),
                )
            } else {
                before
            },
            Item::Unreadable => before,
        }
    }
}

/// Reading a folder of a mount adds one line for each thing that was found and
/// is not excluded, in order, with its own name and kind, below that folder;
/// counts what could not be read; and has just the folders of the same device
/// read in their turn, each for its own line.
pub proof fn mounts_are_listed_line_by_line(
    s: ForeignView,
    dev: u64,
    parent: u32,
    dir: Seq<u8>,
    items: Seq<Item>,
    exclude: Seq<Seq<u8>>,
    k: nat,
)
    requires
        k <= items.len(),
    ensures
        ({
            let t = foreign_items(s, dev, parent, dir, items_of(items), exclude, k);
            &&& t.out == s.out + lines_made(items, parent, dir, exclude, k)
            &&& t.errors == s.errors + faults_among(items, dir, exclude, k)
            &&& t.stack == s.stack + mount_folders(
                items,
                dev,
                parent,
                dir,
                exclude,
                s.out.len(),
                k,
            )
        }),
    decreases k,
{
    let made = lines_made(items, parent, dir, exclude, k);
    if k == 0 {
        assert(s.out + made =~= s.out);
        assert(s.stack + Seq::<(u32, Seq<u8>)>::empty() =~= s.stack);
    } else {
        let m = (k - 1) as nat;
        mounts_are_listed_line_by_line(s, dev, parent, dir, items, exclude, m);
        let b = foreign_items(s, dev, parent, dir, items_of(items), exclude, k);
        assert(items_of(items)[k - 1] == items[k - 1]@);
        if let Item::Found(f) = items[k - 1] {
            assert(joined(dir, f.name@) =~= lies_at(dir, f.name@));
        }
        assert(b.out =~= s.out + made);
        assert(b.stack =~= s.stack + mount_folders(
            items,
            dev,
            parent,
            dir,
            exclude,
            s.out.len(),
            k,
        ));
    }
}

/// A walk starts with its root alone, which is a folder that is alive and still
/// to be read; a root that cannot be reached is a fault, and there is nothing to
/// read.
pub proof fn walks_start_with_their_root(v: IndexView, root: Seq<u8>, ino: u64, dev: u64)
    requires
        parents_first(v.nodes),
        v.nodes.len() < NO_PARENT,
    ensures
        ({
            let s = scan_begun(v, root, Some((ino, dev)));
            let id = s.index.root;
            &&& s.queue == seq![id]
            &&& id < s.index.nodes.len()
            &&& s.index.nodes[id as int] == (Node {
                parent: 0xffff_ffff,
                name: root,
                is_dir: true,
                alive: true,
            })
            &&& s.stats.files == 0 && s.stats.dirs == 1 && s.stats.errors == 0
        }),
        ({
            let s = scan_begun(v, root, None);
            &&& s.queue.len() == 0
            &&& s.index == v
            &&& s.stats.files == 0 && s.stats.dirs == 0 && s.stats.errors == 1
        }),
{
    match v.any_child(NO_PARENT, root) {
        Some(k) => {
            lemma_child_exists(v, NO_PARENT, root, k);
        },
        None => {},
    }
}

/// The folder that was read is not read again; one that could not be read is a
/// fault, and changes nothing else.
pub proof fn folders_are_read_once(
    s: ScanView,
    dev: u64,
    items: Seq<Item>,
    exclude: Seq<Seq<u8>>,
)
    requires
        parents_first(s.index.nodes),
        s.queue.len() > 0,
        s.index.has(s.queue.last()),
        s.index.nodes.len() + items.len() <= NO_PARENT,
        s.stats.room(items.len() as int),
        s.stats.room(1),
    ensures
        ({
            let t = scan_entered(s, dev, None, exclude);
            &&& t.index == s.index
            &&& t.queue == s.queue.drop_last()
            &&& t.stats.files == s.stats.files && t.stats.dirs == s.stats.dirs
            &&& t.stats.errors == s.stats.errors + 1
        }),
        ({
            let t = scan_entered(s, dev, Some(items), exclude);
            let parent = s.queue.last();
            let dir = path(s.index.nodes, parent as int);
            &&& t.index.nodes == s.index.nodes + entries_made(
                items,
                parent,
                dir,
                exclude,
                items.len(),
            )
            &&& t.queue == s.queue.drop_last() + folders_to_read(
                items,
                dev,
                parent,
                dir,
                exclude,
                s.index.nodes.len(),
                items.len(),
            )
        }),
{
    let rest = ScanView { queue: s.queue.drop_last(), ..s };
    folders_are_taken_in_whole(rest, dev, s.queue.last(), items, exclude, items.len());
}

/// Something is mounted where the device differs from that of the folder above,
/// and nowhere else.
pub proof fn mounts_have_devices_of_their_own(d: u64, a: u64, e: String, other: Result<u64, String>)
    ensures
        d != a ==> mount_fault(Ok(d), Ok(a)) is None,
        d == a ==> mount_fault(Ok(d), Ok(a)) == Some("not mounted"@),
        mount_fault(Err(e), other) == Some(e@),
        mount_fault(Ok(d), Err(e)) == Some(e@),
{
}

/// A mount whose own folder cannot be read is given up; of any other folder in it
/// a fault is counted, and the walk goes on with the rest.
pub proof fn unread_mounts_are_given_up(
    s: ForeignView,
    dev: u64,
    items: Seq<Item>,
    exclude: Seq<Seq<u8>>,
    first: bool,
)
    requires
        s.stack.len() > 0,
    ensures
        mount_entered(s, true, dev, None, exclude).2,
        !mount_entered(s, false, dev, None, exclude).2,
        mount_entered(s, false, dev, None, exclude).0.errors == s.errors + 1,
        mount_entered(s, false, dev, None, exclude).0.out == s.out,
        mount_entered(s, false, dev, None, exclude).0.stack == s.stack.drop_last(),
        !mount_entered(s, first, dev, Some(items), exclude).2,
        !mount_entered(s, first, dev, Some(items), exclude).1,
        mount_entered(s, first, dev, Some(items), exclude).0.out == s.out + lines_made(
            items,
            s.stack.last().0,
            s.stack.last().1,
            exclude,
            items.len(),
        ),
{
    let rest = ForeignView { stack: s.stack.drop_last(), ..s };
    let (parent, dir) = s.stack.last();
    mounts_are_listed_line_by_line(rest, dev, parent, dir, items, exclude, items.len());
}

/// A walk reads the folder that it takes in next, and ends when none is left; a
/// folder that appeared is read first of all, and what a mount comes to is what was
/// listed of it, with the faults.
pub proof fn walks_read_what_they_take_in(
    s: ScanView,
    m: ForeignView,
    v: IndexView,
    id: u32,
    depth: u32,
    f: Foreign,
)
    ensures
        read_next(s) is None <==> s.queue.len() == 0,
        s.queue.len() > 0 ==> read_next(s) == Some(path(s.index.nodes, s.queue.last() as int)),
        mount_next(m) is None <==> m.stack.len() == 0,
        m.stack.len() > 0 ==> mount_next(m) == Some(m.stack.last().1),
        subtree_begun(id).0.len() == 0,
        subtree_next(v, subtree_begun(id).1) == Some(path(v.nodes, id as int)),
        subtree_begun(id).1 matches Some(p) && p.1 == 0,
        subtree_next(v, Some((id, depth))) == Some(path(v.nodes, id as int)),
        subtree_next(v, None) is None,
        walk_result(f) matches ForeignWalk::Listed(list, faults) && list == f.out && faults
            == f.errors,
{
}

// One entry at a time.

/// A name stands behind its folder and one separator.
pub proof fn names_are_joined_by_one_slash(dir: Seq<u8>, name: Seq<u8>)
    ensures
        dir.len() == 0 || dir.last() != 0x2f ==> joined(dir, name) == dir + seq![0x2fu8] + name,
        dir.len() > 0 && dir.last() == 0x2f ==> joined(dir, name) == dir + name,
        joined(dir, name) == lies_at(dir, name),
{
    if dir.len() > 0 && dir.last() == 0x2f {
        assert(joined(dir, name) =~= dir + name);
    }
}

/// Each entry of a folder changes a walk by itself: what is excluded not at all, and
/// what cannot be read by one fault. Of the rest a file is one file more, a folder one
/// folder more; one on the same device is to be read, one on another is not, and one
/// whose device is not known is a fault besides.
pub proof fn entries_are_taken_in_one_by_one(
    s: ScanView,
    dev: u64,
    parent: u32,
    item: Item,
    exclude: Seq<Seq<u8>>,
)
    requires
        s.index.nodes.len() < NO_PARENT,
        s.stats.room(1),
    ensures
        ({
            let t = scan_item(s, dev, parent, item@, exclude);
            let dir = path(s.index.nodes, parent as int);
            let id = s.index.nodes.len() as u32;
            match item {
                Item::Unreadable => t.index == s.index && t.queue == s.queue && t.stats.files
                    == s.stats.files && t.stats.dirs == s.stats.dirs && t.stats.errors
                    == s.stats.errors + 1,
                Item::Found(f) => if has_alike(exclude, lies_at(dir, f.name@)) {
                    t == s
                } else {
                    &&& t.index.nodes == s.index.nodes.push(
                        Node { parent, name: f.name@, is_dir: f.is_dir, alive: true },
                    )
                    &&& t.stats.files == s.stats.files + (if f.is_dir {
                        0int
                    } else {
                        1
                    })
                    &&& t.stats.dirs == s.stats.dirs + (if f.is_dir {
                        1int
                    } else {
                        0
                    })
                    &&& t.stats.errors == s.stats.errors + (if f.is_dir && f.dev is None {
                        1int
                    } else {
                        0
                    })
                    &&& t.queue == (if f.is_dir && f.dev == Some(dev) {
                        s.queue.push(id)
                    } else {
                        s.queue
                    })
                    &&& t.index.dir_ino == (if f.is_dir && (f.dev is None || f.dev == Some(dev)) {
                        s.index.dir_ino.insert(f.ino, id)
                    } else {
                        s.index.dir_ino
                    })
                },
            }
        }),
{
    if let Item::Found(f) = item {
        names_are_joined_by_one_slash(path(s.index.nodes, parent as int), f.name@);
    }
}

/// The same of a mount: each entry is a line of the listing, with its place in it, and
/// a folder on the mount's own device is to be read.
pub proof fn lines_are_listed_one_by_one(
    s: ForeignView,
    dev: u64,
    parent: u32,
    dir: Seq<u8>,
    item: Item,
    exclude: Seq<Seq<u8>>,
)
    ensures
        ({
            let t = foreign_item(s, dev, parent, dir, item@, exclude);
            match item {
                Item::Unreadable => t.out == s.out && t.stack == s.stack && t.errors == s.errors
                    + 1,
                Item::Found(f) => if has_alike(exclude, lies_at(dir, f.name@)) {
                    t == s
                } else {
                    &&& t.out == s.out.push(Line { parent, name: f.name@, is_dir: f.is_dir })
                    &&& t.errors == s.errors + (if f.is_dir && f.dev is None {
                        1int
                    } else {
                        0
                    })
                    &&& t.stack == (if f.is_dir && f.dev == Some(dev) {
                        s.stack.push((s.out.len() as u32, lies_at(dir, f.name@)))
                    } else {
                        s.stack
                    })
                },
            }
        }),
{
    if let Item::Found(f) = item {
        names_are_joined_by_one_slash(dir, f.name@);
    }
}

/// A folder is taken in entry by entry, every one of them and in order.
pub proof fn every_entry_is_taken_in(
    s: ScanView,
    m: ForeignView,
    dev: u64,
    parent: u32,
    dir: Seq<u8>,
    items: Seq<Item>,
    exclude: Seq<Seq<u8>>,
    k: nat,
)
    requires
        k < items.len(),
    ensures
        scan_items(s, dev, parent, items_of(items), exclude, k + 1) == scan_item(
            scan_items(s, dev, parent, items_of(items), exclude, k),
            dev,
            parent,
            items[k as int]@,
            exclude,
        ),
        scan_items(s, dev, parent, items_of(items), exclude, 0) == s,
        foreign_items(m, dev, parent, dir, items_of(items), exclude, k + 1) == foreign_item(
            foreign_items(m, dev, parent, dir, items_of(items), exclude, k),
            dev,
            parent,
            dir,
            items[k as int]@,
            exclude,
        ),
        foreign_items(m, dev, parent, dir, items_of(items), exclude, 0) == m,
{
    assert(items_of(items)[k as int] == items[k as int]@);
}

} // verus!
