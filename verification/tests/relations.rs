//! How changes and answers relate.

use regex::bytes::RegexBuilder;
use spoor::index::{Entry, Index};
use spoor::matcher::RegexRefusal;
use spoor::options::{Kind, SearchOpts};
use spoor::persist::{read_index, write_index};
use spoor::postings::Postings;
use spoor::tree::NO_PARENT;

fn add(ix: &mut Index, parent: u32, name: &str, is_dir: bool, ino: u64) -> u32 {
    ix.add(parent, name.as_bytes(), is_dir, ino)
}

/// /home with folders, files, hidden ones among them, and one that is gone.
fn home() -> Index {
    let mut ix = Index::new();
    let r = add(&mut ix, NO_PARENT, "/home", true, 1);
    ix.set_root(r);
    let work = add(&mut ix, r, "work", true, 2);
    let hid = add(&mut ix, work, ".hidden-report", true, 3);
    add(&mut ix, hid, "report-1.txt", false, 4);
    let rep = add(&mut ix, work, "reports", true, 5);
    add(&mut ix, rep, "report-2.txt", false, 6);
    add(&mut ix, rep, ".report-3.txt", false, 7);
    let gone = add(&mut ix, rep, "report-4.txt", false, 8);
    ix.remove(gone);
    ix
}

/// Each entry as it stands: parent, name, folder, alive.
fn arena(ix: &Index) -> Vec<(u32, Vec<u8>, bool, bool)> {
    ix.raw_entries()
        .iter()
        .map(|e| (e.parent, e.name.clone(), e.is_dir, e.alive))
        .collect()
}

fn sorted(mut v: Vec<String>) -> Vec<String> {
    v.sort();
    v
}

/// A search by name, one by path, one for two words and one by expression.
fn queries() -> Vec<(&'static str, SearchOpts)> {
    let plain = SearchOpts::default();
    vec![
        ("report", plain),
        ("work/", plain),
        ("report work", plain),
        ("report", SearchOpts { in_path: true, ..plain }),
        ("report-[0-9]", SearchOpts { regex: true, ..plain }),
        ("w.*report", SearchOpts { regex: true, in_path: true, ..plain }),
    ]
}

#[test]
fn paths_are_resolved_by_components() {
    let mut ix = Index::new();
    let r = add(&mut ix, NO_PARENT, "/home", true, 1);
    ix.set_root(r);
    let w = add(&mut ix, r, "work", true, 2);
    assert_eq!(ix.resolve_path(b"/homework"), None);
    assert_eq!(ix.resolve_path(b"/home/work"), Some(w));
    assert_eq!(ix.resolve_path(b"/home//work/"), Some(w));
    assert_eq!(ix.resolve_path(b"/home"), Some(r));
    assert_eq!(ix.resolve_path(b"/hom"), None);
    // a root that ends in a separator is followed by a name at once
    let mut mnt = Index::new();
    let r = add(&mut mnt, NO_PARENT, "/mnt/", true, 1);
    mnt.set_root(r);
    let w = add(&mut mnt, r, "work", true, 2);
    assert_eq!(mnt.resolve_path(b"/mnt/work"), Some(w));
}

#[test]
fn an_entrys_path_leads_back_to_it() {
    for root in ["/home", "/", "", "/mnt/"] {
        let mut ix = Index::new();
        let r = add(&mut ix, NO_PARENT, root, true, 1);
        ix.set_root(r);
        let a = add(&mut ix, r, "a", true, 2);
        let b = add(&mut ix, a, "b c", false, 3);
        let raw = ix.add(a, b"caf\xe9", false, 4);
        for id in [r, a, b] {
            assert_eq!(ix.resolve_path(ix.path_of(id).as_bytes()), Some(id), "{:?}", root);
        }
        assert_eq!(ix.resolve_path(&ix.path_bytes(raw)), Some(raw));
    }
}

#[test]
fn inodes_lead_to_living_folders() {
    let mut ix = Index::new();
    let r = add(&mut ix, NO_PARENT, "/home", true, 1);
    let d = add(&mut ix, r, "d", true, 2);
    let e = add(&mut ix, d, "e", true, 3);
    add(&mut ix, d, "f", false, 4);
    assert_eq!(ix.dir_by_ino(3), Some(e));
    assert_eq!(ix.dir_by_ino(4), None);
    ix.remove(d);
    assert_eq!((ix.dir_by_ino(2), ix.dir_by_ino(3)), (None, None));
    let n = ix.add_new(r, b"n", true, 5);
    assert_eq!(ix.dir_by_ino(5), Some(n));
    assert_eq!(ix.dir_by_ino(1), Some(r));
}

#[test]
fn grafting_again_changes_nothing() {
    let mut ix = home();
    let m = ix.resolve_path(b"/home/work/reports").unwrap();
    let list = vec![
        (NO_PARENT, b"report-2.txt".to_vec(), false),
        (NO_PARENT, b"new".to_vec(), true),
        (1, b"inner".to_vec(), false),
    ];
    let s = ix.graft(m, &list);
    assert_eq!((s.total, s.added, s.removed), (3, 2, 1));
    let before = arena(&ix);
    let s = ix.graft(m, &list);
    assert_eq!((s.total, s.added, s.removed), (3, 0, 0));
    assert_eq!(arena(&ix), before);
}

#[test]
fn files_and_folders_together_are_all() {
    let mut ix = home();
    for built in [false, true] {
        if built {
            ix.build_trigrams();
        }
        for (p, o) in queries() {
            let find = |kind| ix.search_opts(p, ix.raw_len(), &SearchOpts { kind, ..o }).unwrap();
            let (files, folders) = (find(Kind::Files), find(Kind::Folders));
            assert!(files.iter().all(|f| f.ends_with(".txt")), "{}", p);
            assert!(folders.iter().all(|f| !f.ends_with(".txt")), "{}", p);
            assert_eq!(sorted([files, folders].concat()), sorted(find(Kind::All)), "{}", p);
        }
    }
}

#[test]
fn hiding_keeps_the_rest_in_order() {
    let mut ix = home();
    for built in [false, true] {
        if built {
            ix.build_trigrams();
        }
        for (p, o) in queries() {
            let find = |hide_hidden| ix.search_opts(p, 100, &SearchOpts { hide_hidden, ..o }).unwrap();
            let seen: Vec<String> =
                find(false).into_iter().filter(|h| !h.contains("/.")).collect();
            assert_eq!(find(true), seen, "{}", p);
        }
    }
    assert_eq!(ix.search("report", 100).len(), 5);
}

#[test]
fn a_smaller_limit_gives_the_beginning() {
    let ix = home();
    for (p, o) in queries() {
        let all = ix.search_opts(p, 100, &o).unwrap();
        for k in 0..=all.len() {
            assert_eq!(ix.search_opts(p, k, &o).unwrap(), all[..k].to_vec(), "{}", p);
        }
    }
}

#[test]
fn case_narrows_and_paths_add() {
    let mut ix = home();
    let w = ix.resolve_path(b"/home/work").unwrap();
    add(&mut ix, w, "Report-5.TXT", false, 9);
    let plain = SearchOpts::default();
    for p in ["report", "Report", "work/Re", "Report work"] {
        let find = |match_case, in_path| {
            ix.search_opts(p, 100, &SearchOpts { match_case, in_path, ..plain }).unwrap()
        };
        for flag in [false, true] {
            assert!(find(true, flag).iter().all(|h| find(false, flag).contains(h)), "{}", p);
            assert!(find(flag, false).iter().all(|h| find(flag, true).contains(h)), "{}", p);
        }
    }
    let exact = SearchOpts { match_case: true, ..plain };
    assert_eq!(ix.search_opts("Report", 9, &exact).unwrap(), vec!["/home/work/Report-5.TXT"]);
    assert_eq!(ix.search("Report", 100).len(), 6);
}

#[test]
fn building_the_lists_changes_no_answer() {
    let before = home();
    let mut after = home();
    after.build_trigrams();
    assert_eq!(arena(&after), arena(&before));
    assert_eq!((after.len(), after.root_id()), (before.len(), before.root_id()));
    assert_eq!(after.dir_by_ino(5), before.dir_by_ino(5));
    for (p, o) in queries() {
        let (a, b) = (after.search_opts(p, 100, &o).unwrap(), before.search_opts(p, 100, &o).unwrap());
        if o.regex || (!o.in_path && p == "report") {
            assert_eq!(a, b, "{}", p);
        }
        assert_eq!(sorted(a), sorted(b), "{}", p);
    }
    let bad = SearchOpts { regex: true, ..SearchOpts::default() };
    assert_eq!(after.search_opts("(", 9, &bad), before.search_opts("(", 9, &bad));
}

#[test]
fn reloading_changes_no_answer() {
    let ix = home();
    let es = ix
        .raw_entries()
        .iter()
        .map(|e| Entry {
            parent: e.parent,
            name: e.name.clone(),
            is_dir: e.is_dir,
            alive: e.alive,
        })
        .collect();
    let iy = Index::from_snapshot(es, ix.root_id());
    assert_eq!(arena(&iy), arena(&ix));
    assert_eq!((iy.len(), iy.root_id()), (ix.len(), ix.root_id()));
    for (p, o) in queries() {
        assert_eq!(iy.search_opts(p, 100, &o), ix.search_opts(p, 100, &o), "{}", p);
    }
    let work = ix.resolve_path(b"/home/work");
    assert!(work.is_some());
    assert_eq!(iy.resolve_path(b"/home/work"), work);
    assert_eq!(iy.find_child(0, b"work"), work);
    assert_eq!((ix.dir_by_ino(2), iy.dir_by_ino(2)), (work, None));
}

#[test]
fn an_index_is_read_back_as_it_was_written() {
    let ix = home();
    let mut bytes = b"before".to_vec();
    write_index(&mut bytes, &ix);
    let end = bytes.len();
    bytes.extend(b"behind");
    let (back, at) = read_index(&bytes, 6).ok().unwrap();
    assert_eq!(at, end);
    assert_eq!(arena(&back), arena(&ix));
    assert_eq!(back.root_id(), ix.root_id());
}

#[test]
fn pushing_leaves_the_records() {
    let mut p = Postings::default();
    for x in [7, 3, 7, 70_000, 70_000, 9, u32::MAX - 1, 0, u32::MAX, u32::MAX, 5] {
        p.push(x);
    }
    let want = vec![7, 70_000, u32::MAX - 1, u32::MAX];
    assert_eq!(p.len(), want.len());
    assert_eq!(p.to_vec(), want);
}

#[test]
fn every_outcome_of_compiling_has_its_answer() {
    let ix = home();
    let o = SearchOpts { regex: true, ..SearchOpts::default() };
    let report = |r: RegexRefusal| ix.answer_compiled(Err(r), 9, &o, false);
    assert_eq!(
        report(RegexRefusal::Syntax("a line\nerror: unclosed\n".to_string())),
        Err("invalid regex: unclosed".to_string())
    );
    assert_eq!(
        report(RegexRefusal::TooBig("too much".to_string())),
        Err("invalid regex: too much".to_string())
    );
    let compiled = || Ok(RegexBuilder::new("REPORT-[0-9]").case_insensitive(true).build().unwrap());
    let all = ix.answer_compiled(compiled(), 9, &o, false).unwrap();
    assert_eq!(all.len(), 3);
    assert_eq!(all, ix.search_opts_raw("REPORT-[0-9]", 9, &o).unwrap());
    for k in 1..4 {
        assert_eq!(ix.answer_compiled(compiled(), k, &o, false).unwrap(), all[..k].to_vec());
    }
}
