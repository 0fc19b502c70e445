//! The index and its searches.

use spoor::index::Index;
use spoor::options::{Kind, SearchOpts};
use spoor::postings::{intersect_stream, Postings, PostingsIter};
use spoor::terms::split_terms;
use spoor::tree::NO_PARENT;

fn add(ix: &mut Index, parent: u32, name: &str, is_dir: bool, ino: u64) -> u32 {
    ix.add(parent, name.as_bytes(), is_dir, ino)
}

/// What is left of a list, from `target` on.
fn rest(mut it: PostingsIter<'_>, target: u32) -> Vec<u32> {
    let mut out = Vec::new();
    while let Some(x) = it.next() {
        if x >= target {
            out.push(x);
        }
    }
    out
}

fn sample() -> (Index, u32) {
    let mut ix = Index::new();
    let root = add(&mut ix, NO_PARENT, "/", true, 1);
    ix.set_root(root);
    let home = add(&mut ix, root, "home", true, 2);
    let alice = add(&mut ix, home, "alice", true, 3);
    add(&mut ix, alice, "invoice-followup-T004821.txt", false, 4);
    (ix, alice)
}

#[test]
fn reconstructs_paths() {
    let (ix, alice) = sample();
    assert_eq!(ix.path_of(alice), "/home/alice");
}

#[test]
fn finds_case_insensitively() {
    let (ix, _) = sample();
    // the exact bug that started this: lowercase query, uppercase filename
    let hits = ix.search("invoice-followup-t004821", 10);
    assert_eq!(hits, vec!["/home/alice/invoice-followup-T004821.txt"]);
}

#[test]
fn matches_on_full_path_when_slash_present() {
    let (ix, _) = sample();
    assert_eq!(ix.search("alice/invoice", 10).len(), 1);
    assert_eq!(ix.search("nosuchdir/invoice", 10).len(), 0);
}

#[test]
fn path_query_matches_descendants() {
    // "/home/alice" contains "home/alice", and so does everything beneath it
    let (ix, _) = sample();
    let hits = ix.search("home/alice", 10);
    assert!(hits.iter().any(|h| h.ends_with("invoice-followup-T004821.txt")));
}

#[test]
fn path_query_spans_a_separator() {
    let (mut ix, alice) = sample();
    let proj = add(&mut ix, alice, "project", true, 20);
    add(&mut ix, proj, "notes.md", false, 21);
    assert_eq!(ix.search("alice/project", 10).len(), 2); // dir + child
    assert_eq!(ix.search("alice/proj", 10).len(), 2); // partial last segment
    assert_eq!(ix.search("lice/project", 10).len(), 2); // partial first segment
    assert_eq!(ix.search("alice/zzz", 10).len(), 0);
}

#[test]
fn path_query_is_case_insensitive() {
    let (ix, _) = sample();
    assert_eq!(ix.search("HOME/ALICE", 10).len(), ix.search("home/alice", 10).len());
    assert!(!ix.search("HOME/ALICE", 10).is_empty());
}

#[test]
fn removal_is_recursive() {
    let (mut ix, alice) = sample();
    assert_eq!(ix.search("invoice", 10).len(), 1);
    ix.remove(alice);
    assert_eq!(ix.search("invoice", 10).len(), 0);
}

fn varied() -> Index {
    let mut ix = Index::new();
    let root = add(&mut ix, NO_PARENT, "/data", true, 1);
    ix.set_root(root);
    let a = add(&mut ix, root, "reports", true, 2);
    for n in [
        "invoice-followup-T004821.txt",
        "invoice-entity-response.md",
        "INVOICE-Summary.PDF",
        "notes.txt",
        "readme",
        "ab",
        "watch.rs",
        "watcher.rs",
        "unrelated-file.bin",
    ] {
        add(&mut ix, a, n, false, 10);
    }
    ix
}

fn tree() -> Index {
    let mut ix = Index::new();
    let root = add(&mut ix, NO_PARENT, "/home", true, 1);
    ix.set_root(root);
    let alice = add(&mut ix, root, "alice", true, 2);
    let ws = add(&mut ix, alice, "workspace", true, 3);
    let garden = add(&mut ix, ws, "garden-analyze", true, 4);
    let research = add(&mut ix, garden, "research", true, 5);
    let h10 = add(&mut ix, research, "H10-seed-catalog", true, 6);
    let data = add(&mut ix, h10, "data", true, 7);
    let suppliers = add(&mut ix, data, "suppliers", true, 8);
    add(&mut ix, suppliers, "invoice-followup-T004821.txt", false, 9);
    add(&mut ix, suppliers, "invoice-entity-response.md", false, 10);
    let src = add(&mut ix, alice, "src", true, 11);
    let evd = add(&mut ix, src, "spoor", true, 12);
    let esrc = add(&mut ix, evd, "src", true, 13);
    for n in ["watch.rs", "index.rs", "gui.rs", "krunner.rs"] {
        add(&mut ix, esrc, n, false, 20);
    }
    let ws2 = add(&mut ix, src, "workspace-notes", true, 30);
    add(&mut ix, ws2, "garden.md", false, 31);
    ix
}

#[test]
fn trigram_path_search_matches_kmp_exactly() {
    let plain = tree();
    let mut tri = tree();
    tri.build_trigrams();
    for q in [
        "workspace/garden",
        "workspace/garden-analyze",
        "src/spoor",
        "spoor/src",
        "alice/src",
        "home/alice",
        "/home/alice",
        "suppliers/invoice",
        "data/suppliers",
        "space/garden",
        "src/watch.rs",
        "src/nothing-here",
        "zzz/aaa",
        "alice/workspace",
        "H10-seed-catalog/data",
    ] {
        let mut a = plain.search(q, 1000);
        let mut b = tri.search(q, 1000);
        a.sort();
        b.sort();
        assert_eq!(a, b, "path query {:?} diverged", q);
    }
}

#[test]
fn postings_round_trip_including_large_gaps() {
    let mut p = Postings::default();
    let ids: Vec<u32> = vec![0, 1, 2, 127, 128, 129, 16_383, 16_384, 1_000_000, 2_573_082];
    for &i in &ids {
        p.push(i);
    }
    assert_eq!(p.len(), ids.len());
    assert_eq!(p.to_vec(), ids);
    // out-of-order or repeated ids are ignored, not corrupting the stream
    p.push(5);
    p.push(2_573_082);
    assert_eq!(p.to_vec(), ids);
}

#[test]
fn seeking_from_a_checkpoint_yields_the_same_tail() {
    let mut p = Postings::default();
    let ids: Vec<u32> = (0..1000u32).map(|i| i * 7).collect();
    for &i in &ids {
        p.push(i);
    }
    assert_eq!(p.to_vec(), ids);
    assert!(!p.skips.is_empty(), "list long enough to have checkpoints");

    for target in [0u32, 1, 6, 7, 8, 349, 350, 351, 6992, 6993, 9999] {
        let expected: Vec<u32> = ids.iter().copied().filter(|&x| x >= target).collect();
        let got: Vec<u32> = match p.checkpoint_for(target) {
            Some((id, off)) => rest(p.iter_at(id, off), target),
            None => rest(p.iter(), target),
        };
        assert_eq!(got, expected, "seek to {}", target);
    }
}

#[test]
fn galloping_intersection_matches_naive() {
    let mut p = Postings::default();
    let ids: Vec<u32> = (0..5000u32).map(|i| i * 3).collect();
    for &i in &ids {
        p.push(i);
    }
    for step in [1u32, 2, 3, 50, 977] {
        let acc: Vec<u32> = (0..400u32).map(|i| i * step).collect();
        let expected: Vec<u32> = acc
            .iter()
            .copied()
            .filter(|x| ids.binary_search(x).is_ok())
            .collect();
        assert_eq!(intersect_stream(&acc, &p), expected, "step {}", step);
    }
    // empty accumulator must not panic
    assert!(intersect_stream(&vec![], &p).is_empty());
}

fn opts() -> SearchOpts {
    SearchOpts::default()
}

#[test]
fn match_case_distinguishes_case() {
    let (ix, _) = sample();
    let cs = SearchOpts { match_case: true, ..opts() };
    assert_eq!(ix.search_opts("T004821", 10, &cs).unwrap().len(), 1);
    assert_eq!(ix.search_opts("t004821", 10, &cs).unwrap().len(), 0);
    assert_eq!(ix.search_opts("t004821", 10, &opts()).unwrap().len(), 1);
}

#[test]
fn match_case_holds_with_trigrams_built() {
    let mut ix = varied();
    ix.build_trigrams();
    let cs = SearchOpts { match_case: true, ..opts() };
    assert_eq!(ix.search_opts("INVOICE", 10, &cs).unwrap().len(), 1);
    assert_eq!(ix.search_opts("invoice", 10, &cs).unwrap().len(), 2);
    assert_eq!(ix.search_opts("invoice", 10, &opts()).unwrap().len(), 3);
}

#[test]
fn search_in_path_matches_descendants_without_a_slash() {
    let mut ix = tree();
    ix.build_trigrams();
    let p = SearchOpts { in_path: true, ..opts() };
    // name mode: only the directory itself
    assert_eq!(ix.search_opts("garden-analyze", 100, &opts()).unwrap().len(), 1);
    // path mode: the directory and everything beneath it
    let hits = ix.search_opts("garden-analyze", 100, &p).unwrap();
    assert!(hits.iter().any(|h| h.ends_with("invoice-followup-T004821.txt")));
    assert_eq!(hits.len(), 7);
}

#[test]
fn path_mode_trigram_matches_kmp_for_every_case_setting() {
    let plain = tree();
    let mut tri = tree();
    tri.build_trigrams();
    for cs in [false, true] {
        let o = SearchOpts { in_path: true, match_case: cs, ..opts() };
        for q in [
            "garden", "suppliers", "alice", "ALICE", "src", "rs", "H10", "h10", "zzz",
            "spoor", "workspace/garden", "SRC/spoor", "home",
        ] {
            let mut a = plain.search_opts(q, 1000, &o).unwrap();
            let mut b = tri.search_opts(q, 1000, &o).unwrap();
            a.sort();
            b.sort();
            assert_eq!(a, b, "query {:?} case_sensitive={}", q, cs);
        }
    }
}

#[test]
fn regex_matches_names_and_paths() {
    let mut ix = tree();
    ix.build_trigrams();
    let r = SearchOpts { regex: true, ..opts() };
    assert_eq!(ix.search_opts(r"^invoice-.*\.txt$", 100, &r).unwrap().len(), 1);
    // case-insensitive unless Match Case is on
    assert_eq!(ix.search_opts(r"^INVOICE-", 100, &r).unwrap().len(), 2);
    let rc = SearchOpts { regex: true, match_case: true, ..opts() };
    assert_eq!(ix.search_opts(r"^INVOICE-", 100, &rc).unwrap().len(), 0);
    // a '/' in the pattern matches against the whole path
    assert_eq!(
        ix.search_opts(r"spoor/src/[a-z]+\.rs$", 100, &r).unwrap().len(),
        4
    );
    let rp = SearchOpts { regex: true, in_path: true, ..opts() };
    assert_eq!(
        ix.search_opts(r"^/home/alice/src$", 100, &rp).unwrap(),
        vec!["/home/alice/src"]
    );
}

#[test]
fn invalid_regex_is_an_error_not_a_panic() {
    let (ix, _) = sample();
    let r = SearchOpts { regex: true, ..opts() };
    let err = ix.search_opts("(unclosed", 10, &r).unwrap_err();
    assert!(err.starts_with("invalid regex"), "{}", err);
    assert!(!err.contains('\n'), "must fit the line protocol: {:?}", err);
}

#[test]
fn files_and_folders_filters() {
    let mut ix = tree();
    ix.build_trigrams();
    let files = SearchOpts { kind: Kind::Files, ..opts() };
    let folders = SearchOpts { kind: Kind::Folders, ..opts() };
    assert_eq!(ix.search_opts("src", 100, &opts()).unwrap().len(), 2);
    assert_eq!(ix.search_opts("src", 100, &files).unwrap().len(), 0);
    assert_eq!(ix.search_opts("src", 100, &folders).unwrap().len(), 2);
    assert_eq!(ix.search_opts(".rs", 100, &files).unwrap().len(), 4);
    assert_eq!(ix.search_opts(".rs", 100, &folders).unwrap().len(), 0);
    // filters apply in path mode too, where descendants are emitted
    let p_files = SearchOpts { kind: Kind::Files, in_path: true, ..opts() };
    assert_eq!(ix.search_opts("spoor", 100, &p_files).unwrap().len(), 4);
}

#[test]
fn hidden_entries_can_be_excluded() {
    let mut ix = tree();
    let root = ix.root_id();
    let alice = ix.find_child(root, "alice".as_bytes()).unwrap();
    let cache = add(&mut ix, alice, ".cache", true, 50);
    add(&mut ix, cache, "notes-cache.txt", false, 51);
    add(&mut ix, alice, ".notes-rc", false, 52);
    ix.build_trigrams();
    let hide = SearchOpts { hide_hidden: true, ..opts() };
    assert_eq!(ix.search_opts("notes", 100, &opts()).unwrap().len(), 3);
    assert_eq!(ix.search_opts("notes", 100, &hide).unwrap().len(), 1);
    let path = SearchOpts { in_path: true, ..opts() };
    let hide_path = SearchOpts { in_path: true, hide_hidden: true, ..opts() };
    assert_eq!(ix.search_opts("cache", 100, &path).unwrap().len(), 2);
    assert_eq!(ix.search_opts("cache", 100, &hide_path).unwrap().len(), 0);
    let hide_regex = SearchOpts { regex: true, hide_hidden: true, ..opts() };
    assert_eq!(ix.search_opts("notes", 100, &hide_regex).unwrap().len(), 1);
}

#[test]
fn flags_round_trip() {
    let o = SearchOpts {
        match_case: true,
        regex: true,
        in_path: true,
        kind: Kind::Folders,
        hide_hidden: true,
    };
    assert_eq!(SearchOpts::from_flags(&o.to_flags()), o);
    assert_eq!(SearchOpts::default().to_flags(), "-");
    assert_eq!(SearchOpts::from_flags("-"), SearchOpts::default());
}

#[test]
fn trailing_slash_path_queries_match_kmp() {
    for root_name in ["/home", "/home/alice"] {
        let build = || {
            let mut ix = Index::new();
            let root = add(&mut ix, NO_PARENT, root_name, true, 1);
            ix.set_root(root);
            let src = add(&mut ix, root, "src", true, 2);
            let sp = add(&mut ix, src, "spoor", true, 3);
            add(&mut ix, sp, "main.rs", false, 4);
            let photos = add(&mut ix, root, "photos", true, 5);
            add(&mut ix, photos, "IMG-1.jpg", false, 6);
            let nested = add(&mut ix, photos, "photos-2024", true, 7);
            add(&mut ix, nested, "IMG-2.jpg", false, 8);
            ix
        };
        let plain = build();
        let mut tri = build();
        tri.build_trigrams();
        for q in [
            "home/", "alice/", "/home/", "/home/alice/", "src/", "src/spoor/", "photos/",
            "PHOTOS/", "photos-2024/", "oto/", "zzz/", "/home/alice/photos/", "ome/alice/pho",
        ] {
            for cs in [false, true] {
                let o = SearchOpts { match_case: cs, ..SearchOpts::default() };
                let mut a = plain.search_opts(q, 1000, &o).unwrap();
                let mut b = tri.search_opts(q, 1000, &o).unwrap();
                a.sort();
                b.sort();
                assert_eq!(a, b, "root {:?} query {:?} case_sensitive={}", root_name, q, cs);
            }
        }
    }
}

#[test]
fn graft_replaces_a_mounted_subtree_in_place() {
    let mut ix = tree();
    ix.build_trigrams();
    let root = ix.root_id();
    let alice = ix.find_child(root, "alice".as_bytes()).unwrap();
    let drive = add(&mut ix, alice, "GoogleDrive", true, 60);
    let w = |v: &[(u32, &str, bool)]| -> Vec<(u32, Vec<u8>, bool)> {
        v.iter().map(|(p, n, d)| (*p, n.as_bytes().to_vec(), *d)).collect()
    };

    let s1 = ix.graft(drive, &w(&[
        (NO_PARENT, "photos", true),
        (0, "IMG-1.jpg", false),
        (0, "IMG-2.jpg", false),
        (NO_PARENT, "notes.txt", false),
    ]));
    assert_eq!((s1.total, s1.added, s1.removed), (4, 4, 0));
    assert_eq!(ix.search("IMG-", 10).len(), 2);
    let arena = ix.raw_len();

    // IMG-2 deleted on the remote, IMG-3 added
    let s2 = ix.graft(drive, &w(&[
        (NO_PARENT, "photos", true),
        (0, "IMG-1.jpg", false),
        (0, "IMG-3.jpg", false),
        (NO_PARENT, "notes.txt", false),
    ]));
    assert_eq!((s2.total, s2.added, s2.removed), (4, 1, 1));
    let mut hits = ix.search("IMG-", 10);
    hits.sort();
    assert_eq!(
        hits,
        vec![
            "/home/alice/GoogleDrive/photos/IMG-1.jpg",
            "/home/alice/GoogleDrive/photos/IMG-3.jpg"
        ]
    );
    assert_eq!(ix.raw_len(), arena + 1, "unchanged entries are revived, not re-created");
    // the query that prompted this: a folder path with a trailing slash
    assert_eq!(ix.search("/home/alice/GoogleDrive/photos/", 10).len(), 2);

    // an empty listing empties the subtree but keeps the mount point
    let s3 = ix.graft(drive, &[]);
    assert_eq!(s3.removed, 4);
    assert_eq!(ix.search("IMG-", 10).len(), 0);
    assert_eq!(ix.search("GoogleDrive", 10).len(), 1);
}

#[test]
fn query_splitting() {
    assert_eq!(split_terms("a b"), vec!["a", "b"]);
    assert_eq!(split_terms("  a   b  "), vec!["a", "b"]);
    assert_eq!(split_terms("\"wedding 2019\" notes"), vec!["wedding 2019", "notes"]);
    assert_eq!(split_terms("\"unterminated phrase"), vec!["unterminated phrase"]);
    assert!(split_terms("\"\"").is_empty());
}

fn words_tree(root_name: &str) -> Index {
    let mut ix = Index::new();
    let root = add(&mut ix, NO_PARENT, root_name, true, 1);
    ix.set_root(root);
    let photos = add(&mut ix, root, "photos", true, 2);
    let wedding = add(&mut ix, photos, "wedding 2019", true, 3);
    add(&mut ix, wedding, "IMG-1.jpg", false, 4);
    add(&mut ix, wedding, "notes.txt", false, 5);
    add(&mut ix, photos, "beach.JPG", false, 6);
    let docs = add(&mut ix, root, "documents", true, 7);
    let invoice = add(&mut ix, docs, "invoice", true, 8);
    add(&mut ix, invoice, "followup-T004821.txt", false, 9);
    add(&mut ix, invoice, "statement.pdf", false, 10);
    add(&mut ix, docs, "invoice-summary.txt", false, 11);
    let cache = add(&mut ix, root, ".cache", true, 12);
    add(&mut ix, cache, "wedding-thumb.jpg", false, 13);
    let a = add(&mut ix, root, "a", true, 14);
    add(&mut ix, a, "b.txt", false, 15);
    let beta = add(&mut ix, root, "beta", true, 16);
    add(&mut ix, beta, "alpha.txt", false, 17);
    ix
}

/// Brute force: every term in the full path, plus the usual filters.
fn reference(ix: &Index, q: &str, o: &SearchOpts) -> Vec<String> {
    let terms: Vec<String> = split_terms(q)
        .into_iter()
        .map(|t| if o.match_case { t } else { t.to_ascii_lowercase() })
        .collect();
    let mut out = Vec::new();
    for i in 0..ix.raw_len() as u32 {
        if ix.accept_match(i, true, o).is_none() {
            continue;
        }
        let p = ix.path_of(i);
        let hay = if o.match_case { p.clone() } else { p.to_ascii_lowercase() };
        if terms.iter().all(|t| hay.contains(t.as_str())) {
            out.push(p);
        }
    }
    out.sort();
    out
}

#[test]
fn multi_term_and_matches_brute_force_and_scan() {
    let queries = [
        "wedding jpg", "jpg wedding", "invoice txt", "documents invoice", "photos/ jpg",
        "photos/ wedding", "\"wedding 2019\" notes", "wedding 2019", "a b", "a/ b",
        "invoice/ txt", "INVOICE txt", "zzz jpg", "txt invoice documents", "cache jpg",
        "/home/ invoice", "home invoice", "hotos/wed jpg", "alpha beta", "jpg JPG",
    ];
    let optsets = [
        SearchOpts::default(),
        SearchOpts { match_case: true, ..SearchOpts::default() },
        SearchOpts { kind: Kind::Files, ..SearchOpts::default() },
        SearchOpts { kind: Kind::Folders, ..SearchOpts::default() },
        SearchOpts { hide_hidden: true, ..SearchOpts::default() },
        SearchOpts { in_path: true, ..SearchOpts::default() },
    ];
    for root_name in ["/home", "/home/alice"] {
        let plain = words_tree(root_name);
        let mut tri = words_tree(root_name);
        tri.build_trigrams();
        for q in queries {
            for o in &optsets {
                let want = reference(&plain, q, o);
                let mut scan = plain.search_opts(q, 1000, o).unwrap();
                let mut fast = tri.search_opts(q, 1000, o).unwrap();
                scan.sort();
                fast.sort();
                assert_eq!(scan, want, "scan: root {:?} query {:?} {:?}", root_name, q, o);
                assert_eq!(fast, want, "trigram: root {:?} query {:?} {:?}", root_name, q, o);
            }
        }
    }
}

#[test]
fn words_may_match_folders_as_well_as_the_name() {
    let mut ix = words_tree("/home");
    ix.build_trigrams();
    // "wedding" is only in the folder name of IMG-1.jpg, and both words
    // are in the name of the (hidden) thumbnail
    let mut hits = ix.search("wedding jpg", 10);
    hits.sort();
    assert_eq!(
        hits,
        vec!["/home/.cache/wedding-thumb.jpg", "/home/photos/wedding 2019/IMG-1.jpg"]
    );
    // order does not matter
    let mut rev = ix.search("jpg wedding", 10);
    rev.sort();
    assert_eq!(rev, hits);
    let visible = SearchOpts { hide_hidden: true, ..SearchOpts::default() };
    assert_eq!(
        ix.search_opts("wedding jpg", 10, &visible).unwrap(),
        vec!["/home/photos/wedding 2019/IMG-1.jpg"]
    );
    // quotes keep the space; unquoted, it is two words
    assert_eq!(ix.search("\"beta alpha\"", 10).len(), 0);
    assert_eq!(ix.search("beta alpha", 10), vec!["/home/beta/alpha.txt"]);
    // a single word is still a file-name match
    assert_eq!(ix.search("wedding", 10).len(), 2);
}

#[test]
fn trigram_search_matches_the_scan_exactly() {
    let plain = varied();
    let mut tri = varied();
    tri.build_trigrams();
    for q in [
        "invoice", "INVOICE", "followup", "t004821", "T004821", ".txt", "watch",
        "watcher", "rs", "ab", "zzz", "unrelated", "e-r",
    ] {
        assert_eq!(
            plain.search(q, 100),
            tri.search(q, 100),
            "mismatch for query {:?}",
            q
        );
    }
}

#[test]
fn entries_added_after_build_are_searchable() {
    let mut ix = varied();
    ix.build_trigrams();
    assert_eq!(ix.search("afterwards", 10).len(), 0);
    let root = ix.root_id();
    add(&mut ix, root, "added-afterwards.log", false, 99);
    assert_eq!(ix.search("afterwards", 10).len(), 1);
    assert_eq!(ix.search("AFTERWARDS", 10).len(), 1);
}

#[test]
fn deleted_entries_drop_out_of_trigram_results() {
    let mut ix = varied();
    ix.build_trigrams();
    let hits = ix.search("notes.txt", 10);
    assert_eq!(hits.len(), 1);
    let root = ix.root_id();
    let reports = ix.find_child(root, "reports".as_bytes()).unwrap();
    let id = ix.find_child(reports, "notes.txt".as_bytes()).unwrap();
    ix.remove(id);
    assert_eq!(ix.search("notes.txt", 10).len(), 0);
}

#[test]
fn repeated_adds_do_not_duplicate() {
    let (mut ix, alice) = sample();
    add(&mut ix, alice, "dup.txt", false, 90);
    add(&mut ix, alice, "dup.txt", false, 90);
    add(&mut ix, alice, "dup.txt", false, 90);
    assert_eq!(ix.search("dup.txt", 10).len(), 1);
}

#[test]
fn overlapping_subtree_scans_do_not_duplicate() {
    // Mirrors the live path: a new tree is walked wholesale, then the
    // individual create events for its contents arrive and re-add them.
    let (mut ix, alice) = sample();
    let build = |ix: &mut Index| {
        let a = add(ix, alice, "a", true, 10);
        let b = add(ix, a, "b", true, 11);
        let c = add(ix, b, "c", true, 12);
        add(ix, c, "leaf.txt", false, 13);
    };
    build(&mut ix);
    build(&mut ix);
    build(&mut ix);
    assert_eq!(ix.search("leaf.txt", 10).len(), 1);
}

#[test]
fn new_nested_dirs_are_indexed() {
    // the FSearch failure case, as a unit test
    let (mut ix, alice) = sample();
    let a = add(&mut ix, alice, "a", true, 10);
    let b = add(&mut ix, a, "b", true, 11);
    add(&mut ix, b, "deep-new-file.txt", false, 12);
    assert_eq!(
        ix.search("deep-new-file", 10),
        vec!["/home/alice/a/b/deep-new-file.txt"]
    );
}
