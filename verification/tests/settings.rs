//! The settings file.

use spoor::checks::{Findings, Probe, Resolution};
use spoor::config::{Config, DEFAULT_PATH, MAX_BYTES};
use spoor::place::{is_within, lexical};

#[test]
fn text_round_trip() {
    let c = Config {
        roots: vec!["/home".into(), "/srv/a b".into()],
        exclude: vec!["/home/x/.cache".into()],
        rescan: vec!["/home/x/Drive".into()],
        rescan_interval: 600,
    };
    assert_eq!(Config::parse(&c.to_text()).unwrap(), c);
}

#[test]
fn parse_errors_name_the_line_not_its_text() {
    let e = Config::parse("root = /home\nsecret stuff\n").unwrap_err();
    assert_eq!(e, "line 2: expected `key = value`");
    let e = Config::parse("password = hunter2").unwrap_err();
    assert!(!e.contains("password") && !e.contains("hunter2"), "{}", e);
    assert!(Config::parse("rescan_interval = soon").is_err());
}

fn folder(p: &str) -> Probe {
    Probe::Folder(p.into(), 1)
}

/// What a filesystem with `/t/a`, `/t/a/inner`, `/t/a/drive` and the link
/// `/t/link` to `/t/a` says of a path.
fn probe(p: &str) -> Probe {
    match p.trim_end_matches('/') {
        "/t/a" | "/t/link" => folder("/t/a"),
        "/t/a/inner" => folder("/t/a/inner"),
        "/t/a/drive" => folder("/t/a/drive"),
        "/t/a/file" => Probe::NotFolder,
        _ => Probe::Missing("No such file or directory (os error 2)".into()),
    }
}

fn findings(c: &Config) -> Findings {
    Findings {
        roots: c.roots.iter().map(|p| probe(p)).collect(),
        rescan: c.rescan.iter().map(|p| probe(p)).collect(),
        exclude: c
            .exclude
            .iter()
            .map(|p| match probe(p) {
                Probe::Folder(p, _) => Resolution::Path(p),
                _ => Resolution::Unknown,
            })
            .collect(),
    }
}

fn check(c: &mut Config) -> Result<Vec<String>, String> {
    let f = findings(c);
    c.validate(&f)
}

#[test]
fn validation_normalises_and_explains() {
    let mut c = Config {
        roots: vec![
            "/t/a/inner".into(), // nested, same filesystem: dropped
            "/t/a/".into(),      // trailing slash normalised
            "/t/link".into(),    // symlink resolved: a duplicate
        ],
        exclude: vec!["/t/a/gone".into(), "/nowhere/else".into()],
        rescan: vec!["/t/a/drive".into()],
        rescan_interval: 900,
    };
    let notes = check(&mut c).unwrap();
    assert_eq!(c.roots, vec!["/t/a"]);
    assert_eq!(c.exclude, vec!["/t/a/gone"]);
    assert_eq!(c.rescan, vec!["/t/a/drive"]);
    assert_eq!(notes.len(), 2, "{:?}", notes);
    assert_eq!(
        notes,
        vec![
            "/t/a/inner is already indexed as part of /t/a",
            "/nowhere/else is not inside an indexed folder; ignored"
        ]
    );

    let bad = |roots: Vec<String>, rescan: Vec<String>| {
        let mut c = Config {
            roots,
            rescan,
            ..Config::default()
        };
        check(&mut c)
    };
    assert!(bad(vec!["relative/path".into()], vec![]).is_err());
    assert!(bad(vec!["/t/a/../a".into()], vec![]).is_err());
    assert!(bad(vec!["/t/a/missing".into()], vec![]).is_err());
    assert!(bad(vec![], vec![]).is_err());
    assert!(bad(vec!["/t/a/inner".into()], vec!["/t/a/drive".into()]).is_err());
}

#[test]
fn each_refusal_says_why() {
    let why = |roots: &[&str], exclude: &[&str], rescan: &[&str], every: u64| {
        let list = |l: &[&str]| l.iter().map(|s| s.to_string()).collect::<Vec<String>>();
        let mut c = Config {
            roots: list(roots),
            exclude: list(exclude),
            rescan: list(rescan),
            rescan_interval: every,
        };
        let before = c.clone();
        let e = check(&mut c).unwrap_err();
        assert_eq!(c, before, "a refusal changes nothing");
        e
    };
    assert_eq!(
        why(&["/t/a"], &[], &[], 59),
        "rescan interval must be between 1 minute and 7 days"
    );
    assert_eq!(
        why(&["/t/a"], &[], &[], 604_801),
        "rescan interval must be between 1 minute and 7 days"
    );
    assert_eq!(why(&[], &[], &[], 900), "choose at least one folder to index");
    assert_eq!(
        why(&["/t/a/file"], &[], &[], 900),
        "folder to index /t/a/file is not a folder"
    );
    assert_eq!(
        why(&["/t/gone"], &[], &[], 900),
        "folder to index /t/gone: No such file or directory (os error 2)"
    );
    assert_eq!(
        why(&["rel"], &[], &[], 900),
        "folder to index rel is not an absolute path"
    );
    assert_eq!(
        why(&["/t/a/inner"], &[], &["/t/a/drive"], 900),
        "network folder /t/a/drive must be inside one of the folders to index"
    );
    assert_eq!(
        why(&["/t/a"], &["/t/link"], &[], 900),
        "/t/a is both indexed and excluded"
    );
    assert_eq!(
        why(&["/t/a"], &["x\ny"], &[], 900),
        "excluded folder contains a line break"
    );
}

#[test]
fn names_that_are_not_text_are_refused() {
    let mut c = Config::default();
    let f = Findings {
        roots: vec![Probe::NotUtf8("/home/\u{fffd}".into())],
        rescan: vec![],
        exclude: vec![],
    };
    assert_eq!(
        c.validate(&f).unwrap_err(),
        "/home/\u{fffd} is not valid UTF-8"
    );
    let mut c = Config {
        exclude: vec!["/home/x".into()],
        ..Config::default()
    };
    let f = Findings {
        roots: vec![folder("/home")],
        rescan: vec![],
        exclude: vec![Resolution::NotUtf8("/home/\u{fffd}".into())],
    };
    assert_eq!(
        c.validate(&f).unwrap_err(),
        "/home/\u{fffd} is not valid UTF-8"
    );
}

#[test]
fn nested_roots_stay_only_on_another_filesystem() {
    let on = |p: &str, dev: u64| Probe::Folder(p.into(), dev);
    let mut c = Config {
        roots: vec!["/a/b/c".into(), "/a/b".into(), "/a".into(), "/ab".into()],
        ..Config::default()
    };
    let f = Findings {
        roots: vec![on("/a/b/c", 2), on("/a/b", 2), on("/a", 1), on("/ab", 1)],
        rescan: vec![],
        exclude: vec![],
    };
    let notes = c.validate(&f).unwrap();
    assert_eq!(c.roots, vec!["/a", "/ab", "/a/b"]);
    assert_eq!(notes, vec!["/a/b/c is already indexed as part of /a/b"]);
}

#[test]
fn daemon_normalisation_never_needs_the_folders() {
    let mut c = Config {
        roots: vec![
            "/no/such/disk/".into(),
            "/no/such/disk".into(),
            "rel".into(),
        ],
        exclude: vec!["/a//b/./c".into()],
        rescan: vec![],
        rescan_interval: 900,
    };
    let notes = c.normalize();
    assert_eq!(c.roots, vec!["/no/such/disk"]);
    assert_eq!(c.exclude, vec!["/a/b/c"]);
    assert_eq!(notes.len(), 1, "{:?}", notes);
}

#[test]
fn within() {
    assert!(is_within("/home/a", "/home"));
    assert!(is_within("/home", "/home"));
    assert!(!is_within("/homework", "/home"));
    assert!(is_within("/anything", "/"));
}

#[test]
fn settings_files_are_read_line_by_line() {
    let c = Config::parse("# a comment\n\n  root=/a b \r\nexclude = \nrescan_interval = +60\n").unwrap();
    assert_eq!(c.roots, vec!["/a b"]);
    assert_eq!(c.exclude, vec![""]);
    assert_eq!(c.rescan_interval, 60);
    assert_eq!(Config::parse("").unwrap().rescan_interval, 900);
    assert!(Config::parse("").unwrap().roots.is_empty());
    assert_eq!(Config::default().roots, vec!["/home"]);
    assert_eq!(
        Config::parse("\nrescan_interval = -1").unwrap_err(),
        "line 2: rescan_interval must be whole seconds"
    );
    assert_eq!(Config::parse("x = y").unwrap_err(), "line 1: unknown setting");
    assert_eq!(
        Config::default().to_text(),
        "# Which folders spoor indexes. Written by `spoor configure` (the\n\
         # Preferences window); read when the spoor service starts.\n\
         root = /home\nrescan_interval = 900\n"
    );
    assert_eq!(DEFAULT_PATH, "/etc/spoor/spoor.conf");
}

#[test]
fn large_settings_are_refused() {
    let mut text = "#".repeat(MAX_BYTES as usize);
    assert!(Config::read_text(&text).is_ok());
    text.push('#');
    assert_eq!(Config::read_text(&text).unwrap_err(), "settings too large");
    assert_eq!(Config::read_text("x").unwrap_err(), "line 1: expected `key = value`");
}

#[test]
fn paths_are_tidied_once() {
    for (given, tidy) in [("/", "/"), ("//a//", "/a"), ("/./a/./b/.", "/a/b"), ("/.x", "/.x")] {
        assert_eq!(lexical(given, "folder").unwrap(), tidy);
        assert_eq!(lexical(tidy, "folder").unwrap(), tidy);
    }
    assert_eq!(lexical("", "folder").unwrap_err(), "folder  is not an absolute path");
    assert_eq!(lexical("/a/..", "folder").unwrap_err(), "folder /a/.. may not contain ..");
    assert_eq!(lexical("/a\0", "folder").unwrap_err(), "folder contains a line break");
}

#[test]
fn whatever_is_read_can_be_written_again() {
    for text in [
        "",
        "root = /a = b\nexclude=#x\nrescan = \n",
        "  rescan_interval = 0007 \r\n# root = /x\nroot=/y z",
    ] {
        let c = Config::parse(text).unwrap();
        assert_eq!(Config::parse(&c.to_text()).unwrap(), c, "{:?}", text);
    }
}
