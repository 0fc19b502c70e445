//! The parts that searching is made of.

use spoor::fold::{contains_ascii_ci, fold, is_ascii, name_contains};
use spoor::index::Index;
use spoor::kmp::{kmp_failure, kmp_feed, kmp_step};
use spoor::live::{plan, settle};
use spoor::options::SearchOpts;
use spoor::tree::NO_PARENT;
use spoor::walk::{Found, Item, Scan};
use spoor::watch::{Event, FAN_CREATE, FAN_DELETE, FAN_ONDIR};

#[test]
fn the_automaton_runs_over_boundaries() {
    let p = b"abab";
    let f = kmp_failure(p);
    assert_eq!(f, vec![0, 0, 1, 2]);
    let (k, hit) = kmp_feed(p, &f, 0, b"xaba");
    assert_eq!((k, hit), (3, false));
    let (k, hit) = kmp_feed(p, &f, k, b"b");
    // what was matched counts for the next one, too
    assert_eq!((k, hit), (2, true));
    assert_eq!(kmp_feed(p, &f, k, b"ab"), (2, true));
    assert_eq!(kmp_step(3, b'b', p, &f), (2, true));
    assert_eq!(kmp_step(3, b'a', p, &f), (1, false));
    assert_eq!(kmp_feed(p, &f, 0, b""), (0, false));
    assert!(kmp_failure(b"").is_empty());
}

#[test]
fn case_is_folded_by_character() {
    assert_eq!(fold("ÉTÉ Straße".as_bytes()), "été straße".as_bytes());
    assert_eq!(fold(b"AB\xffC\xc9"), b"ab\xffc\xc9");
    assert!(is_ascii(b"abc") && !is_ascii("é".as_bytes()));
    assert!(contains_ascii_ci(b"ReadMe", b"dme") && !contains_ascii_ci(b"ReadMe", b"dmx"));
    assert!(name_contains("Отчёт.pdf".as_bytes(), "отчёт".as_bytes(), false));
    assert!(!name_contains("Отчёт.pdf".as_bytes(), "отчёт".as_bytes(), true));
    // one character does not stand for two
    assert!(!name_contains("Straße".as_bytes(), b"strasse", false));
}

/// The paths that hold every word, by looking at each.
fn by_looking(ix: &Index, words: &[&str]) -> Vec<String> {
    let mut out: Vec<String> = (0..ix.raw_len() as u32)
        .filter(|&i| ix.raw_entries()[i as usize].alive)
        .map(|i| ix.path_of(i))
        .filter(|p| words.iter().all(|w| p.contains(w)))
        .collect();
    out.sort();
    out
}

#[test]
fn every_change_keeps_searches_exact() {
    let found = |name: &str, is_dir: bool, ino: u64| {
        Item::Found(Found {
            name: name.as_bytes().to_vec(),
            is_dir,
            ino,
            dev: Some(1),
        })
    };
    let mut ix = Index::new();
    let mut s = Scan::start(&mut ix, b"/home", Some((1, 1)));
    while let Some(dir) = s.next_dir(&ix) {
        let items = match dir.as_slice() {
            b"/home" => vec![found("photos", true, 2), found("photo.jpg", false, 3)],
            b"/home/photos" => vec![found("trip", true, 4), found("drive", true, 5)],
            _ => vec![found("photo-1.jpg", false, 6)],
        };
        s.enter(&mut ix, &Some(items), &vec![]);
    }
    ix.build_trigrams();
    let event = |mask: u64, ino: u64, name: &str| Event {
        mask,
        parent_ino: ino,
        parent_path: None,
        name: name.as_bytes().to_vec(),
    };
    for (ev, ino) in [
        (event(FAN_CREATE, 4, "photo-2.jpg"), 7),
        (event(FAN_CREATE | FAN_ONDIR, 2, "photos"), 8),
        (event(FAN_CREATE, 8, "photo-3.jpg"), 9),
        (event(FAN_DELETE, 4, "photo-1.jpg"), 0),
    ] {
        let step = plan(&ix, &ev, &vec![]);
        settle(&mut ix, &ev, &step, ino);
    }
    let mount = ix.resolve_path(b"/home/photos/drive").unwrap();
    let list = vec![
        (NO_PARENT, b"trip".to_vec(), true),
        (0, b"photo-4.jpg".to_vec(), false),
    ];
    assert!(ix.try_graft(mount, &list).is_some());
    for words in [vec!["trip", "jpg"], vec!["photos", "photo"], vec!["photos/"], vec!["s/t"]] {
        let o = SearchOpts {
            in_path: true,
            ..SearchOpts::default()
        };
        let mut got = ix.search_opts(&words.join(" "), 100, &o).unwrap();
        got.sort();
        assert_eq!(got, by_looking(&ix, &words), "{:?}", words);
    }
    assert_eq!(ix.search("photo-4", 9), vec!["/home/photos/drive/trip/photo-4.jpg"]);
}
