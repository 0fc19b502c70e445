//! The search window and the KRunner plugin.

use spoor::krunner::{icon_for, match_of, rank, run_target, wanted, Rank};
use spoor::options::{Kind, SearchOpts};
use spoor::selection::{
    asks_first, clip_files, clip_status, clip_uris, configure_outcome, copied_status, copied_text,
    delete_question, folders_to_open, interval_minutes, interval_seconds, key_action, name_of,
    opens_all, removal_status, row_of, ListAction, ListKey,
};
use spoor::window::{
    badges, clamp_results, connection_status, filter_name, filter_named, group_digits,
    results_status, typed_pattern, Settings, Stored, Turns,
};

fn all_on() -> SearchOpts {
    SearchOpts {
        match_case: true,
        regex: true,
        in_path: true,
        kind: Kind::Files,
        hide_hidden: true,
    }
}

fn unset() -> Stored {
    Stored {
        match_case: None,
        regex: None,
        in_path: None,
        filter: None,
        show_hidden: None,
        search_as_you_type: None,
        max_results: None,
    }
}

#[test]
fn window_settings_have_defaults_and_bounds() {
    let s = Settings::from_stored(&unset());
    assert_eq!(s.opts, SearchOpts::default());
    assert!(s.search_as_you_type);
    assert_eq!(s.max_results, 500);
    assert_eq!(s.typing_delay(), 40);
    let s = Settings::from_stored(&Stored {
        regex: Some(true),
        filter: Some("folders".into()),
        show_hidden: Some(false),
        search_as_you_type: Some(false),
        max_results: Some(7),
        ..unset()
    });
    assert!(s.opts.regex && s.opts.hide_hidden && !s.search_as_you_type);
    assert_eq!(s.opts.kind, Kind::Folders);
    assert_eq!(s.max_results, 100);
    assert_eq!(s.typing_delay(), 300);
    assert_eq!(clamp_results(-5), 100);
    assert_eq!(clamp_results(30_000), 20_000);
    assert_eq!(clamp_results(321), 321);
    for k in [Kind::All, Kind::Files, Kind::Folders] {
        assert_eq!(filter_named(filter_name(k)), k);
    }
    assert_eq!(filter_named("else"), Kind::All);
}

#[test]
fn overtaken_searches_are_dropped() {
    let mut t = Turns { started: 0, shown: 0 };
    let a = t.start();
    let b = t.start();
    assert!(!t.waiting(a) && t.waiting(b));
    assert!(!t.answer(a));
    assert!(t.answer(b));
    assert!(!t.waiting(b));
    assert_eq!(t, Turns { started: 2, shown: 2 });
}

#[test]
fn the_status_line_reads_well() {
    assert_eq!(badges(&SearchOpts::default()), "");
    assert_eq!(badges(&all_on()), "     [CASE] [REGEX] [PATH] [FILES] [NO HIDDEN]");
    let s = Settings::from_stored(&unset());
    assert_eq!(results_status(1, "0.4", &s), "1 result in 0.4 ms");
    assert_eq!(results_status(500, "0.4", &s), "500 results (limit reached) in 0.4 ms");
    for (n, text) in [(0, "0"), (999, "999"), (1000, "1,000"), (2_300_000, "2,300,000")] {
        assert_eq!(group_digits(n), text);
    }
    assert_eq!(group_digits(u64::MAX), "18,446,744,073,709,551,615");
    let o = SearchOpts { regex: true, ..SearchOpts::default() };
    let said = |r: Option<&str>| connection_status(&r.map(|s| s.to_string()), "/s", &o);
    assert_eq!(said(Some("entries 1234 arena 2000")), "1,234 entries indexed     [REGEX]");
    assert_eq!(said(Some("odd")), "odd entries indexed     [REGEX]");
    assert_eq!(said(Some("odd reply")), "odd reply entries indexed     [REGEX]");
    assert_eq!(
        said(None),
        "NOT connected: no daemon answering at /s — is spoor.service running?     [REGEX]"
    );
}

#[test]
fn rows_show_name_and_folder() {
    let r = row_of(b"/home/a/b.txt", Some((false, 12, 34)));
    assert_eq!((r.name.as_str(), r.parent.as_str()), ("b.txt", "/home/a"));
    assert_eq!((r.size_key, r.mtime_key), (12, 34));
    let d = row_of(b"/top", Some((true, 12, 34)));
    assert_eq!((d.name.as_str(), d.parent.as_str()), ("top", "/"));
    assert_eq!((d.size_key, d.mtime_key), (-1, 34));
    let gone = row_of(b"/caf\xe9", None);
    assert_eq!(gone.name, "caf\u{fffd}");
    assert_eq!((gone.size_key, gone.mtime_key), (-1, -1));
}

#[test]
fn selections_are_acted_on_as_a_whole() {
    let paths = vec![b"/a/x".to_vec(), b"/b/y".to_vec(), b"/a/z\xff".to_vec()];
    assert_eq!(folders_to_open(&paths), vec![b"/a".to_vec(), b"/b".to_vec()]);
    assert_eq!(copied_text(&paths, false), "/a/x\n/b/y\n/a/z\u{fffd}");
    assert_eq!(copied_text(&paths, true), "x\ny\nz\u{fffd}");
    assert_eq!(copied_status("x", 1, true), "copied x");
    assert_eq!(copied_status("", 3, true), "copied 3 names");
    assert_eq!(copied_status("", 3, false), "copied 3 paths");
    assert_eq!(name_of(b"/"), "/");
    let uris = vec!["file:///a".to_string(), "file:///b".to_string()];
    assert_eq!(clip_files(&uris, true), "cut\nfile:///a\nfile:///b");
    assert_eq!(clip_files(&uris, false), "copy\nfile:///a\nfile:///b");
    assert_eq!(clip_uris(&uris), "file:///a\r\nfile:///b\r\n");
    assert_eq!(clip_status(true, 1, true), "cut 1 file — paste in a file manager");
    assert_eq!(clip_status(true, 2, false), "copied 2 files — paste in a file manager");
    assert_eq!(clip_status(false, 2, false), "could not reach the clipboard");
}

#[test]
fn paths_have_components() {
    for (path, name, parent) in [
        ("/a/b", "b", "/a"),
        ("/a/b/", "b", "/a"),
        ("/a//b/./", "b", "/a"),
        ("/a", "a", "/"),
        ("//a", "a", "/"),
        ("/", "/", "/"),
        ("", "", "/"),
        ("/.", "/.", "/"),
        ("/a/..", "/a/..", "/a"),
        ("a", "a", ""),
        ("./a", "a", "."),
        ("a/./b", "b", "a"),
        (".", ".", ""),
    ] {
        let std = std::path::Path::new(path);
        let n = std.file_name().unwrap_or(std.as_os_str());
        assert_eq!(n.to_str(), Some(name));
        assert_eq!(name_of(path.as_bytes()), name);
        let p = std.parent().unwrap_or(std::path::Path::new("/"));
        assert_eq!(p.to_str(), Some(parent));
        let dirs = folders_to_open(&vec![path.as_bytes().to_vec()]);
        assert_eq!(dirs, vec![parent.as_bytes().to_vec()]);
    }
    let twice = vec![b"/a//b/x".to_vec(), b"/a/b/y".to_vec(), b"a/b/z".to_vec()];
    assert_eq!(folders_to_open(&twice), vec![b"/a//b".to_vec(), b"a/b".to_vec()]);
}

#[test]
fn deletions_are_asked_about_and_reported() {
    let one = vec![b"/a/x".to_vec()];
    let two = vec![b"/a/x".to_vec(), b"/a/y".to_vec()];
    assert_eq!(delete_question(&one, 0), "Permanently delete “x”?");
    assert_eq!(
        delete_question(&one, 1),
        "Permanently delete the folder “x” and everything in it?"
    );
    assert_eq!(delete_question(&two, 0), "Permanently delete 2 files?");
    assert_eq!(
        delete_question(&two, 1),
        "Permanently delete 2 items, including 1 folder and everything in it?"
    );
    assert_eq!(
        delete_question(&two, 2),
        "Permanently delete 2 items, including 2 folders and everything in them?"
    );
    let e = Some("busy".to_string());
    let p = Some("/a/x".to_string());
    assert_eq!(removal_status(false, 0, &None, &e), "could not delete: busy");
    assert_eq!(removal_status(true, 2, &p, &e), "deleted 2; one failed: busy");
    assert_eq!(removal_status(false, 1, &p, &None), "moved to trash: /a/x");
    assert_eq!(removal_status(false, 3, &p, &None), "moved to trash 3 files");
    assert_eq!(removal_status(true, 1, &None, &None), "");
}

#[test]
fn the_settings_helper_is_understood() {
    assert_eq!(configure_outcome(Some(0), " saved\n", ""), Ok("saved".into()));
    assert_eq!(
        configure_outcome(Some(126), "", ""),
        Err("Cancelled; the folders are unchanged.".into())
    );
    assert_eq!(
        configure_outcome(Some(127), "", ""),
        Err("Not authorized; the folders are unchanged.".into())
    );
    assert_eq!(configure_outcome(None, "", " \n"), Err("Could not save the folders.".into()));
    assert_eq!(
        configure_outcome(Some(1), "", "spoor: spoor: no such folder\n"),
        Err("no such folder".into())
    );
    assert_eq!(interval_minutes(30), 1);
    assert_eq!(interval_minutes(900), 15);
    assert_eq!(interval_seconds(0), 60);
    assert_eq!(interval_seconds(15), 900);
}

#[test]
fn krunner_matches_are_ranked() {
    assert_eq!(wanted("  ab "), None);
    assert_eq!(wanted(" abc "), Some("abc".to_string()));
    assert_eq!(rank(b"/a/Report.txt", b"report.TXT"), Rank::Exact);
    assert_eq!(rank(b"/a/Report.txt", b"rep"), Rank::Prefix);
    assert_eq!(rank(b"/a/Report.txt", b"port"), Rank::Name);
    assert_eq!(rank(b"/port/x", b"port"), Rank::Path);
    let m = match_of("/a/b/Photo.JPG", "photo");
    assert_eq!(m.name, "Photo.JPG");
    assert_eq!(m.subtext, "/a/b");
    assert_eq!(m.url, "file:///a/b/Photo.JPG");
    assert_eq!(m.icon, "image-x-generic");
    assert_eq!(m.rank, Rank::Prefix);
    assert_eq!(match_of("/top", "top").subtext, "");
    for (path, icon) in [
        ("/a.txt", "text-x-generic"),
        ("/a.pdf", "application-pdf"),
        ("/a.mkv", "video-x-generic"),
        ("/a.flac", "audio-x-generic"),
        ("/a.tar", "package-x-generic"),
        ("/a.rs", "text-x-script"),
        ("/noext", "text-x-generic"),
        ("rs", "text-x-script"),
    ] {
        assert_eq!(icon_for(path), icon, "{}", path);
    }
    assert_eq!(run_target("/a/b", ""), "/a/b");
    assert_eq!(run_target("/a/b", "folder"), "/a");
    assert_eq!(run_target("/b", "folder"), "/");
    assert_eq!(run_target("/", "folder"), "/");
    assert_eq!(run_target("b", "folder"), "/");
}

#[test]
fn keys_act_on_the_selection() {
    for ctrl in [false, true] {
        assert_eq!(key_action(&ListKey::Delete, ctrl, false), ListAction::Trash);
        assert_eq!(key_action(&ListKey::Delete, ctrl, true), ListAction::Delete);
        assert_eq!(key_action(&ListKey::Other, ctrl, true), ListAction::Pass);
    }
    assert_eq!(key_action(&ListKey::C, true, false), ListAction::Copy);
    assert_eq!(key_action(&ListKey::X, true, false), ListAction::Cut);
    assert_eq!(key_action(&ListKey::C, false, false), ListAction::Pass);
    assert_eq!(key_action(&ListKey::X, false, true), ListAction::Pass);
    assert!(opens_all(2, true) && !opens_all(1, true) && !opens_all(2, false));
    assert!(!asks_first(10) && asks_first(11));
}

#[test]
fn spaces_around_a_pattern_are_not_searched_for() {
    assert_eq!(typed_pattern("  two words \t"), "two words");
    assert_eq!(typed_pattern("\u{a0} "), "");
}
