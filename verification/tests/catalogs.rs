//! Several indexed folders.

use spoor::catalog::{Catalog, Part};
use spoor::index::Index;
use spoor::options::SearchOpts;
use spoor::tree::NO_PARENT;
use spoor::watch::{Event, FAN_CREATE};

fn tree(root: &str, names: &[&str]) -> Index {
    let mut ix = Index::new();
    let r = ix.add(NO_PARENT, root.as_bytes(), true, 1);
    ix.set_root(r);
    for (i, n) in names.iter().enumerate() {
        ix.add(r, n.as_bytes(), false, 10 + i as u64);
    }
    ix.build_trigrams();
    ix
}

#[test]
fn searches_every_part_and_merges() {
    let mut outer = tree("/", &["report-a.txt"]);
    // the inner root's mount point, as the outer walk lists it
    let root = outer.root_id();
    outer.add(root, b"data", true, 99);
    outer.build_trigrams();
    let cat = Catalog::new(
        vec![
            ("/".into(), outer),
            ("/data".into(), tree("/data", &["report-b.txt"])),
        ],
        &[],
    );
    let s = |q: &str, n| {
        cat.search(n, |ix: &Index, k: usize| Ok(ix.search_raw(q, k)))
            .unwrap()
            .into_iter()
            .map(|p| String::from_utf8(p).unwrap())
            .collect::<Vec<_>>()
    };
    assert_eq!(s("report", 10), vec!["/report-a.txt", "/data/report-b.txt"]);
    assert_eq!(s("report", 1), vec!["/report-a.txt"]);
    // "/data" is in both parts, but reported once
    assert_eq!(s("data", 10), vec!["/data"]);
    assert_eq!(cat.part_for("/data/x").unwrap().root, "/data");
    assert_eq!(cat.part_for("/datax").unwrap().root, "/");
    assert_eq!(cat.stats().0, 5);
}

#[test]
fn an_error_ends_the_search() {
    let cat = Catalog::new(
        vec![
            ("/a".into(), tree("/a", &["x"])),
            ("/b".into(), tree("/b", &["x"])),
        ],
        &["/a/skip".to_string()],
    );
    assert_eq!(cat.exclude, vec!["/a/skip"]);
    let r = cat.search(5, |_: &Index, k: usize| {
        assert_eq!(k, 5, "the second part is not asked");
        Err("no".to_string())
    });
    assert_eq!(r.unwrap_err(), "no");
    assert_eq!(cat.search(0, |_: &Index, _: usize| Err("no".to_string())), Ok(vec![]));
    assert!(cat.part_for("/c").is_none());
    let none = Catalog::new(vec![], &[]);
    assert!(none.search_all("x", 10, &SearchOpts::default()).unwrap().is_empty());
    assert_eq!(none.stats(), (0, 0));
}

fn event(name: &[u8]) -> Event {
    Event {
        mask: FAN_CREATE,
        parent_ino: 1,
        parent_path: Some(b"/a".to_vec()),
        name: name.to_vec(),
    }
}

fn part() -> Part {
    let mut cat = Catalog::new(vec![("/a".into(), tree("/a", &[]))], &[]);
    cat.parts.remove(0)
}

#[test]
fn events_are_captured_only_while_a_walk_runs() {
    let mut p = part();
    p.capture_events(&vec![event(b"early")]);
    assert!(p.take_captured().is_empty());
    p.begin_capture();
    p.capture_events(&vec![event(b"one"), event(b"two")]);
    p.capture_events(&vec![event(b"three")]);
    let names: Vec<Vec<u8>> = p.take_captured().into_iter().map(|e| e.name).collect();
    assert_eq!(names, vec![b"one".to_vec(), b"two".to_vec(), b"three".to_vec()]);
    assert!(p.capture.is_none());
    assert!(p.take_captured().is_empty());
}

#[test]
fn a_new_listing_replaces_the_old_one() {
    let mut p = part();
    p.keep_listing("/a/m", vec![(NO_PARENT, b"old".to_vec(), false)]);
    p.keep_listing("/a/n", vec![]);
    p.keep_listing("/a/m", vec![(NO_PARENT, b"new".to_vec(), false)]);
    assert_eq!(p.listings.len(), 2);
    let m = p.listings.iter().find(|(k, _)| k == "/a/m").unwrap();
    assert_eq!(m.1[0].1, b"new".to_vec());
}
