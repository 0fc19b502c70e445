//! Walks, and keeping an index current.

use spoor::index::Index;
use spoor::live::{complete, is_listing, plan, rescan_wait, settle, Step};
use spoor::tree::NO_PARENT;
use spoor::walk::{join, Foreign, ForeignWalk, Found, Item, Scan, ScanStats, Subtree, MAX_DEPTH};
use spoor::watch::{
    Event, FAN_CREATE, FAN_DELETE, FAN_MOVED_TO, FAN_ONDIR, FAN_Q_OVERFLOW,
};

fn file(name: &str, ino: u64) -> Item {
    Item::Found(Found {
        name: name.as_bytes().to_vec(),
        is_dir: false,
        ino,
        dev: None,
    })
}

fn dir(name: &str, ino: u64, dev: Option<u64>) -> Item {
    Item::Found(Found {
        name: name.as_bytes().to_vec(),
        is_dir: true,
        ino,
        dev,
    })
}

fn paths(ix: &Index) -> Vec<String> {
    (0..ix.raw_len() as u32).map(|i| ix.path_of(i)).collect()
}

#[test]
fn a_scan_stays_on_its_device_and_leaves_out_what_is_excluded() {
    let mut ix = Index::new();
    let exclude = vec![b"/r/skip".to_vec()];
    let mut s = Scan::start(&mut ix, b"/r", Some((1, 9)));
    let mut read = Vec::new();
    while let Some(p) = s.next_dir(&ix) {
        let p = String::from_utf8(p).unwrap();
        let items = match p.as_str() {
            "/r" => Some(vec![
                file("a.txt", 2),
                dir("sub", 3, Some(9)),
                dir("skip", 4, Some(9)),
                dir("mnt", 1, Some(8)),
                dir("odd", 5, None),
                Item::Unreadable,
            ]),
            "/r/sub" => None,
            _ => panic!("{} is not to be read", p),
        };
        read.push(p);
        s.enter(&mut ix, &items, &exclude);
    }
    assert_eq!(read, vec!["/r", "/r/sub"]);
    assert_eq!(s.stats, ScanStats { files: 1, dirs: 4, errors: 3 });
    assert_eq!(paths(&ix), vec!["/r", "/r/a.txt", "/r/sub", "/r/mnt", "/r/odd"]);
    // the mount's inode repeats the root's, and does not take its place
    assert_eq!(ix.dir_by_ino(1), Some(0));
    assert_eq!(ix.dir_by_ino(3), Some(2));
    assert_eq!(ix.root_id(), 0);
}

#[test]
fn a_root_that_cannot_be_reached_is_an_error() {
    let mut ix = Index::new();
    let s = Scan::start(&mut ix, b"/r", None);
    assert!(s.next_dir(&ix).is_none());
    assert_eq!(s.stats, ScanStats { files: 0, dirs: 0, errors: 1 });
    assert_eq!(ix.raw_len(), 0);
}

#[test]
fn paths_are_joined_with_one_separator() {
    assert_eq!(join(b"/", b"a"), b"/a".to_vec());
    assert_eq!(join(b"/a", b"b"), b"/a/b".to_vec());
    assert_eq!(join(b"/a/", b"b"), b"/a/b".to_vec());
}

fn home() -> (Index, u32) {
    let mut ix = Index::new();
    let r = ix.add(NO_PARENT, b"/home", true, 1);
    ix.set_root(r);
    (ix, r)
}

fn walk_new(ix: &mut Index, id: u32) -> Vec<String> {
    let mut read = Vec::new();
    let mut s = Subtree::start(id);
    while let Some(p) = s.next_dir(ix) {
        let p = String::from_utf8(p).unwrap();
        let items = match p.as_str() {
            "/home/new" => vec![dir("b", 11, None), Item::Unreadable, file("c.txt", 12)],
            "/home/new/b" => vec![file("leaf.txt", 13), dir("skip", 14, None)],
            _ => vec![],
        };
        read.push(p);
        s.enter(ix, items, &vec![b"/home/new/b/skip".to_vec()]);
    }
    read
}

#[test]
fn a_new_tree_is_walked_once_however_often_it_is_reported() {
    let (mut ix, r) = home();
    let id = ix.add(r, b"new", true, 10);
    assert_eq!(walk_new(&mut ix, id), vec!["/home/new", "/home/new/b"]);
    let all = paths(&ix);
    assert_eq!(
        all,
        vec!["/home", "/home/new", "/home/new/b", "/home/new/b/leaf.txt", "/home/new/c.txt"]
    );
    walk_new(&mut ix, id);
    assert_eq!(paths(&ix), all);
}

#[test]
fn walks_of_new_trees_end_somewhere() {
    let (mut ix, r) = home();
    let mut s = Subtree::start(r);
    let mut reads = 0;
    while s.next_dir(&ix).is_some() {
        reads += 1;
        s.enter(&mut ix, vec![dir("d", 100 + reads, None)], &vec![]);
    }
    assert_eq!(reads, MAX_DEPTH as u64 + 1);
    assert_eq!(ix.raw_len(), MAX_DEPTH as usize + 2);
}

#[test]
fn a_mount_is_listed_in_pre_order() {
    let mut w = Foreign::start(b"/m", Ok(7), Ok(1)).ok().unwrap();
    let exclude = vec![b"/m/a/skip".to_vec()];
    while let Some(p) = w.next_dir() {
        let items = match p {
            b"/m" => Ok(vec![dir("a", 2, Some(7)), dir("other", 3, Some(8)), file("f", 4)]),
            b"/m/a" => Ok(vec![file("g", 5), file("skip", 6), dir("bad", 7, None), dir("c", 8, Some(7))]),
            _ => Err("closed".to_string()),
        };
        assert!(w.enter(&items, &exclude).is_none());
    }
    match w.finish() {
        ForeignWalk::Listed(list, errors) => {
            let want: Vec<(u32, Vec<u8>, bool)> = vec![
                (NO_PARENT, b"a".to_vec(), true),
                (NO_PARENT, b"other".to_vec(), true),
                (NO_PARENT, b"f".to_vec(), false),
                (0, b"g".to_vec(), false),
                (0, b"bad".to_vec(), true),
                (0, b"c".to_vec(), true),
            ];
            assert_eq!(list, want);
            assert_eq!(errors, 2);
            assert!(is_listing(&list));
            assert!(list.iter().all(|l| l.0 == NO_PARENT || list[l.0 as usize].2));
        }
        ForeignWalk::Unavailable(e) => panic!("{}", e),
    }
}

#[test]
fn what_is_not_mounted_is_never_walked() {
    let why = |d: Result<u64, String>, a: Result<u64, String>| Foreign::start(b"/m", d, a).err();
    assert_eq!(why(Ok(1), Ok(1)).unwrap(), "not mounted");
    assert_eq!(why(Err("gone".into()), Ok(1)).unwrap(), "gone");
    assert_eq!(why(Ok(1), Err("/: closed".into())).unwrap(), "/: closed");
    // nor is a mount that cannot be read taken for an empty one
    let mut w = Foreign::start(b"/m", Ok(7), Ok(1)).ok().unwrap();
    assert_eq!(w.enter(&Err("denied".into()), &vec![]), Some("denied".to_string()));
}

fn ev(mask: u64, ino: u64, path: Option<&str>, name: &str) -> Event {
    Event {
        mask,
        parent_ino: ino,
        parent_path: path.map(|p| p.as_bytes().to_vec()),
        name: name.as_bytes().to_vec(),
    }
}

fn apply(ix: &mut Index, e: &Event, ino: u64) -> Option<u32> {
    let s = plan(ix, e, &vec![b"/home/cache".to_vec()]);
    settle(ix, e, &s, ino)
}

#[test]
fn events_change_the_index() {
    let (mut ix, r) = home();
    ix.build_trigrams();
    assert_eq!(apply(&mut ix, &ev(FAN_CREATE, 1, None, "report.txt"), 5), None);
    assert_eq!(ix.search("report", 10), vec!["/home/report.txt"]);
    // a folder is to be walked
    let d = apply(&mut ix, &ev(FAN_MOVED_TO | FAN_ONDIR, 1, None, "docs"), 6).unwrap();
    assert_eq!(ix.path_of(d), "/home/docs");
    assert_eq!(ix.dir_by_ino(6), Some(d));
    // by path where the inode is not known
    apply(&mut ix, &ev(FAN_CREATE, 99, Some("/home/docs"), "in.txt"), 7);
    assert_eq!(ix.search("in.txt", 10), vec!["/home/docs/in.txt"]);
    // gone again, with what is in it
    apply(&mut ix, &ev(FAN_DELETE | FAN_ONDIR, 1, None, "docs"), 0);
    assert!(ix.search("in.txt", 10).is_empty());
    assert_eq!(ix.dir_by_ino(6), None);
    assert_eq!(ix.find_child(r, b"docs"), None);
}

#[test]
fn each_event_has_its_step() {
    let (ix, _) = home();
    let exclude = vec![b"/home/cache".to_vec()];
    let step = |e: Event| plan(&ix, &e, &exclude);
    assert!(matches!(step(ev(FAN_Q_OVERFLOW, 1, None, "")), Step::Overflow));
    assert!(matches!(step(ev(FAN_CREATE, 9, None, "x")), Step::Unresolved));
    assert!(matches!(step(ev(FAN_CREATE, 9, Some("/else"), "x")), Step::Unresolved));
    assert!(matches!(step(ev(FAN_CREATE, 9, Some("/homework"), "x")), Step::Unresolved));
    assert!(matches!(step(ev(FAN_CREATE | FAN_ONDIR, 1, None, "cache")), Step::Ignore));
    assert!(matches!(step(ev(FAN_DELETE, 1, None, "unknown")), Step::Ignore));
    assert!(matches!(step(ev(FAN_ONDIR, 1, None, "x")), Step::Ignore));
    match step(ev(FAN_CREATE, 1, None, "x")) {
        Step::Create { parent, path } => assert_eq!((parent, path), (0, b"/home/x".to_vec())),
        _ => panic!("a creation expected"),
    }
}

#[test]
fn excluded_folders_go_by_their_components() {
    for written in ["/home/cache", "/home//cache", "/home/cache/", "/home/./cache", "//home/cache"] {
        let exclude = vec![written.as_bytes().to_vec()];
        let (mut ix, r) = home();
        let made = plan(&ix, &ev(FAN_CREATE | FAN_ONDIR, 1, None, "cache"), &exclude);
        assert!(matches!(made, Step::Ignore), "{}", written);
        let other = plan(&ix, &ev(FAN_CREATE | FAN_ONDIR, 1, None, "cache2"), &exclude);
        assert!(matches!(other, Step::Create { .. }), "{}", written);
        // a walk of a new folder leaves it out too
        let mut s = Subtree::start(r);
        assert!(s.next_dir(&ix).is_some());
        s.enter(&mut ix, vec![dir("cache", 5, None), file("kept", 6)], &exclude);
        assert!(s.next_dir(&ix).is_none());
        assert_eq!(paths(&ix), vec!["/home", "/home/kept"], "{}", written);
        // and so do the first walk and the walk of a mount
        let mut fresh = Index::new();
        let mut s = Scan::start(&mut fresh, b"/home", Some((1, 9)));
        let items = Some(vec![dir("cache", 5, Some(9)), file("kept", 6)]);
        s.enter(&mut fresh, &items, &exclude);
        assert_eq!(paths(&fresh), vec!["/home", "/home/kept"], "{}", written);
        let mut w = Foreign::start(b"/home", Ok(7), Ok(1)).ok().unwrap();
        let items = Ok(vec![dir("cache", 5, Some(7)), file("kept", 6)]);
        assert!(w.enter(&items, &exclude).is_none());
        match w.finish() {
            ForeignWalk::Listed(list, _) => {
                assert_eq!(list, vec![(NO_PARENT, b"kept".to_vec(), false)], "{}", written)
            }
            ForeignWalk::Unavailable(e) => panic!("{}", e),
        }
    }
}

#[test]
fn listings_are_grafted_when_they_fit() {
    let (mut ix, r) = home();
    let m = ix.add(r, b"drive", true, 2);
    let list = vec![
        (NO_PARENT, b"p".to_vec(), true),
        (0, b"q".to_vec(), false),
        (NO_PARENT, b"q".to_vec(), false),
    ];
    let s = ix.try_graft(m, &list).unwrap();
    assert_eq!((s.total, s.added, s.removed), (3, 3, 0));
    let again = ix.try_graft(m, &list).unwrap();
    assert_eq!((again.total, again.added, again.removed), (3, 0, 0));
    // a name listed twice counts twice: the last listing says what it is
    let twins = [(NO_PARENT, b"q".to_vec(), false), (NO_PARENT, b"q".to_vec(), true)];
    let s = ix.try_graft(m, &twins).unwrap();
    assert_eq!((s.total, s.added, s.removed), (2, 0, 1));
    assert_eq!(ix.search("q", 10), vec!["/home/drive/q"]);
    // and no more is gone than was there
    let s = ix.try_graft(m, &twins).unwrap();
    assert_eq!((s.total, s.added, s.removed), (2, 0, 0));
    assert_eq!(ix.search("q", 10), vec!["/home/drive/q"]);
    let back = ix.try_graft(m, &list).unwrap();
    assert_eq!((back.total, back.added, back.removed), (3, 2, 0));
    assert!(ix.graft_fits(m, &list));
    // an element before its parent, and a mount that is not there
    assert!(ix.try_graft(m, &[(0, b"q".to_vec(), false)]).is_none());
    assert!(ix.try_graft(77, &[]).is_none());
    assert_eq!(ix.search("q", 10).len(), 2);
}

#[test]
fn a_fresh_index_gets_its_listings_back() {
    let (mut fresh, r) = home();
    fresh.add(r, b"drive", true, 2);
    let listings = vec![
        ("/home/drive".to_string(), vec![(NO_PARENT, b"photo.jpg".to_vec(), false)]),
        ("/home/gone".to_string(), vec![(NO_PARENT, b"lost.jpg".to_vec(), false)]),
    ];
    complete(&mut fresh, &listings);
    assert_eq!(fresh.search("jpg", 10), vec!["/home/drive/photo.jpg"]);
    assert!(fresh.trigram_stats().0 > 0);
}

#[test]
fn unavailable_mounts_are_retried_soon() {
    assert_eq!(rescan_wait(true, 900), 900);
    assert_eq!(rescan_wait(false, 900), 60);
    assert_eq!(rescan_wait(false, 30), 30);
}
