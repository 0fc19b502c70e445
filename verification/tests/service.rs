//! Starting the daemon, and what it merges.

use spoor::catalog::Catalog;
use spoor::config::Config;
use spoor::index::Index;
use spoor::mark::{
    init_flags, init_message, mark_flags, mark_mask, mark_message, marked_instead, InitFault,
    MarkFault,
};
use spoor::service::{daemon_config, daemon_opts, Rescan};
use spoor::tree::NO_PARENT;

fn args(v: &[&str]) -> Vec<String> {
    v.iter().map(|s| s.to_string()).collect()
}

fn tree(root: &str, names: &[&str]) -> Index {
    let mut ix = Index::new();
    let r = ix.add(NO_PARENT, root.as_bytes(), true, 1);
    ix.set_root(r);
    for (i, n) in names.iter().enumerate() {
        ix.add(r, n.as_bytes(), true, 10 + i as u64);
    }
    ix
}

#[test]
fn flags_add_to_the_settings_file() {
    let a = args(&[
        "spoor", "daemon", "--root", "/srv", "--exclude", "/srv/x", "--rescan", "/srv/m",
        "--rescan-interval", "120", "--root", "/data",
    ]);
    let c = daemon_config(Some(Config::default()), &a);
    assert_eq!(c.roots, vec!["/home", "/srv", "/data"]);
    assert_eq!(c.exclude, vec!["/srv/x"]);
    assert_eq!(c.rescan, vec!["/srv/m"]);
    assert_eq!(c.rescan_interval, 120);
    // without a file, only the flags count
    let c = daemon_config(None, &a);
    assert_eq!(c.roots, vec!["/srv", "/data"]);
    // with neither, /home
    let c = daemon_config(None, &args(&["spoor", "daemon"]));
    assert_eq!(c, Config::default());
    let empty = Config {
        roots: vec![],
        ..Config::default()
    };
    let c = daemon_config(Some(empty), &args(&["spoor", "daemon", "--rescan-interval", "x"]));
    assert_eq!(c, Config::default());
}

#[test]
fn the_daemon_has_defaults() {
    let o = daemon_opts(&args(&["spoor", "daemon"]), Config::default());
    assert_eq!(o.sock, "/run/spoor.sock");
    assert_eq!(o.state_path, "/var/lib/spoor/index.bin");
    assert_eq!((o.duration_secs, o.save_interval, o.reconcile_interval), (0, 60, 86_400));
    assert!(o.watch_enabled);
    let o = daemon_opts(
        &args(&[
            "spoor", "daemon", "--socket", "/s", "--state", "/t", "--duration", "5", "--no-watch",
            "--save-interval", "0", "--reconcile-interval", "7",
        ]),
        Config::default(),
    );
    assert_eq!((o.sock.as_str(), o.state_path.as_str()), ("/s", "/t"));
    assert_eq!((o.duration_secs, o.save_interval, o.reconcile_interval), (5, 0, 7));
    assert!(!o.watch_enabled);
}

#[test]
fn a_restart_serves_what_the_snapshot_held() {
    let previous = vec![
        ("/old".to_string(), tree("/old", &["dropped"])),
        ("/a".to_string(), tree("/a", &["stale"])),
        ("/b".to_string(), tree("/b", &["kept-b"])),
        ("/a".to_string(), tree("/a", &["kept-a"])),
    ];
    let roots = args(&["/a", "/new", "/b", "/a"]);
    let cat = Catalog::restore(&roots, previous, &args(&["/a/x"]));
    let held: Vec<Vec<String>> = cat
        .parts
        .iter()
        .map(|p| p.index.search("kept", 10))
        .collect();
    assert_eq!(held[0], vec!["/a/kept-a"]);
    assert_eq!(held[2], vec!["/b/kept-b"]);
    assert!(cat.parts[1].index.raw_len() == 0 && cat.parts[3].index.raw_len() == 0);
    assert_eq!(cat.parts.len(), 4);
    assert_eq!(cat.parts[3].root, "/a");
    assert_eq!(cat.exclude, vec!["/a/x"]);
}

#[test]
fn listings_go_to_the_innermost_part() {
    let list = |n: &str| vec![(NO_PARENT, n.as_bytes().to_vec(), false)];
    let mut cat = Catalog::new(
        vec![
            ("/".into(), tree("/", &["m"])),
            ("/data".into(), tree("/data", &["m"])),
        ],
        &[],
    );
    match cat.merge_listing("/data/m", list("inner")) {
        Rescan::Merged(s) => assert_eq!((s.total, s.added, s.removed), (1, 1, 0)),
        _ => panic!("merged expected"),
    }
    assert_eq!(cat.parts[1].index.search("inner", 10), vec!["/data/m/inner"]);
    assert!(cat.parts[0].index.search("inner", 10).is_empty());
    assert_eq!(cat.parts[1].listings.len(), 1);
    assert!(matches!(cat.merge_listing("/data/none", list("x")), Rescan::NotIndexed));
    let twins = vec![
        (NO_PARENT, b"t".to_vec(), false),
        (NO_PARENT, b"t".to_vec(), false),
    ];
    match cat.merge_listing("/m", twins) {
        Rescan::Merged(s) => assert_eq!((s.total, s.added, s.removed), (2, 2, 0)),
        _ => panic!("merged expected"),
    }
    assert_eq!(cat.parts[0].listings.len(), 1);
    // an element before its parent is no listing
    let early = vec![(0, b"t".to_vec(), false)];
    assert!(matches!(cat.merge_listing("/m", early), Rescan::Refused));
    assert_eq!(cat.parts[0].index.search("t", 10), vec!["/m/t", "/m/t"]);
    let mut small = Catalog::new(vec![("/a".into(), tree("/a", &[]))], &[]);
    assert!(matches!(small.merge_listing("/b/m", list("x")), Rescan::Outside));
}

#[test]
fn subvolumes_are_watched_through_their_mount() {
    let info = b"1 1 0:1 / / rw\n2 1 0:2 / /mnt rw\n";
    let other = marked_instead(b"/mnt/sub", &MarkFault::Device, info);
    assert_eq!(other, Some(b"/mnt".to_vec()));
    assert_eq!(marked_instead(b"/mnt", &MarkFault::Device, info), None);
    assert_eq!(marked_instead(b"/mnt/sub", &MarkFault::Handles, info), None);
    assert_eq!(marked_instead(b"/mnt/sub", &MarkFault::Device, b""), None);
}

#[test]
fn refusals_of_the_kernel_are_explained() {
    assert_eq!(
        init_message(&InitFault::Flags, "bad"),
        "fanotify_init: bad -- spoor needs Linux 5.9 or newer (FAN_REPORT_DFID_NAME)"
    );
    assert_eq!(
        init_message(&InitFault::Privilege, "no"),
        "fanotify_init: no -- spoor needs CAP_SYS_ADMIN; run it as root"
    );
    assert_eq!(init_message(&InitFault::Other, "e"), "fanotify_init: e");
    assert_eq!(
        mark_message("/m", &MarkFault::Handles, "e"),
        "fanotify_mark /m: e -- this filesystem does not support fanotify file handles"
    );
    assert_eq!(
        mark_message("/m", &MarkFault::Device, "e"),
        "fanotify_mark /m: e -- fanotify refuses a filesystem mark on this path (a btrfs \
         subvolume), and its mount point could not be marked either"
    );
    assert_eq!(mark_message("/m", &MarkFault::Other, "e"), "fanotify_mark /m: e");
    assert_eq!(init_flags(), 0xc31);
    assert_eq!(mark_flags(), 0x101);
    assert_eq!(mark_mask(), 0x4000_03c0);
}
