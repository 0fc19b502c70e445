//! The socket protocol.

use spoor::catalog::Catalog;
use spoor::index::Index;
use spoor::options::{Kind, SearchOpts};
use spoor::protocol::{
    encode_reply, folder_of, parse_request, permit, read_reply, request_line, stats_line, Reply,
    Request, MAX_LIMIT, NEWLINE, NUL,
};
use spoor::tree::NO_PARENT;

fn search(line: &str) -> (usize, SearchOpts, String, bool) {
    match parse_request(line) {
        Request::Search { limit, opts, pattern, nul } => (limit, opts, pattern, nul),
        _ => panic!("not a search: {:?}", line),
    }
}

#[test]
fn requests_are_parsed() {
    let none = SearchOpts::default();
    assert_eq!(search("QUERY 5 a b\n"), (5, none, "a b".into(), false));
    assert_eq!(search("SEARCH 5 - a b\r\n"), (5, none, "a b".into(), false));
    let cr = SearchOpts { match_case: true, regex: true, ..none };
    assert_eq!(search("SEARCH0 5 cr ^a$"), (5, cr, "^a$".into(), true));
    let h = SearchOpts { hide_hidden: true, kind: Kind::Files, ..none };
    assert_eq!(search("SEARCH 5 fh"), (5, h, "".into(), false));
    // a limit that is no number, none at all, and one beyond the bound
    assert_eq!(search("QUERY x a").0, 100);
    assert_eq!(search("QUERY  a"), (100, none, "a".into(), false));
    assert_eq!(search("SEARCH 999999999 - a").0, MAX_LIMIT);
    assert_eq!(search("SEARCH 99999999999999999999999 - a").0, 100);
    assert!(matches!(parse_request("STATS \n"), Request::Stats));
    assert!(matches!(parse_request("STATS x"), Request::Unknown));
    assert!(matches!(parse_request("QUERY"), Request::Unknown));
    assert!(matches!(parse_request(""), Request::Unknown));
}

#[test]
fn requests_survive_the_wire() {
    let o = SearchOpts {
        match_case: true,
        in_path: true,
        kind: Kind::Folders,
        ..SearchOpts::default()
    };
    let line = request_line("two\nwords \r", 7, &o);
    assert_eq!(line, "SEARCH0 7 cpd two words  \n");
    assert_eq!(search(&line), (7, o, "two words".into(), true));
    let blank = request_line("  ", 7, &SearchOpts::default());
    assert_eq!(search(&blank), (7, SearchOpts::default(), "".into(), true));
}

#[test]
fn replies_survive_the_wire() {
    let paths = vec![b"/a\nb".to_vec(), b"/caf\xe9".to_vec(), b"/ERR x".to_vec()];
    let bytes = encode_reply(&Reply::Paths(paths.clone()), NUL);
    assert_eq!(bytes, b"/a\nb\0/caf\xe9\0/ERR x\0\0");
    assert_eq!(read_reply(&bytes, NUL), Ok(paths.clone()));
    // the line forms withhold what they cannot tell apart
    let lines = encode_reply(&Reply::Paths(paths.clone()), NEWLINE);
    assert_eq!(lines, b"/caf\xe9\n/ERR x\n\n");
    assert_eq!(read_reply(&lines, NEWLINE), Ok(paths[1..].to_vec()));
    assert_eq!(encode_reply(&Reply::Paths(vec![]), NUL), b"\0");
    assert_eq!(read_reply(b"", NUL), Ok(vec![]));
    // an answer that broke off is taken as far as it came
    assert_eq!(read_reply(b"/a\0/b", NUL), Ok(vec![b"/a".to_vec(), b"/b".to_vec()]));
    assert_eq!(read_reply(b"/a\0\0/b\0", NUL), Ok(vec![b"/a".to_vec()]));
}

#[test]
fn each_form_has_its_separator() {
    assert_eq!(parse_request("SEARCH0 5 - a").separator(), NUL);
    for line in ["SEARCH 5 - a", "QUERY 5 a", "STATS", "?"] {
        assert_eq!(parse_request(line).separator(), NEWLINE);
    }
}

#[test]
fn errors_are_records() {
    let e = Reply::Error("invalid regex".into());
    assert_eq!(encode_reply(&e, NEWLINE), b"ERR invalid regex\n\n");
    assert_eq!(
        read_reply(&encode_reply(&e, NUL), NUL),
        Err("invalid regex".to_string())
    );
    assert_eq!(read_reply(b"ERR \xff\0\0", NUL), Err("\u{fffd}".to_string()));
    assert_eq!(encode_reply(&Reply::Stats(12, 345), NEWLINE), b"entries 12 arena 345\n\n");
    assert_eq!(stats_line(0, 10), "entries 0 arena 10");
}

fn catalog() -> Catalog {
    let mut ix = Index::new();
    let r = ix.add(NO_PARENT, b"/home", true, 1);
    ix.set_root(r);
    ix.add(r, b"report.txt", false, 2);
    let gone = ix.add(r, b"gone.txt", false, 3);
    ix.remove(gone);
    Catalog::new(vec![("/home".into(), ix)], &[])
}

#[test]
fn the_catalog_answers() {
    let cat = catalog();
    match cat.answer(&parse_request("QUERY 10 report")) {
        Reply::Paths(p) => assert_eq!(p, vec![b"/home/report.txt".to_vec()]),
        _ => panic!("paths expected"),
    }
    match cat.answer(&parse_request("SEARCH 10 r (")) {
        Reply::Error(e) => assert!(e.starts_with("invalid regex"), "{}", e),
        _ => panic!("an error expected"),
    }
    match cat.answer(&parse_request("STATS")) {
        Reply::Stats(n, slots) => assert_eq!((n, slots), (2, 3)),
        _ => panic!("numbers expected"),
    }
    match cat.answer(&parse_request("DROP")) {
        Reply::Error(e) => assert_eq!(e, "unknown command"),
        _ => panic!("an error expected"),
    }
}

#[test]
fn callers_see_what_they_may_list() {
    let paths = vec![b"/a/x".to_vec(), b"/b/y".to_vec(), b"/a/z".to_vec()];
    assert_eq!(
        permit(&paths, &vec![true, false, true]),
        vec![b"/a/x".to_vec(), b"/a/z".to_vec()]
    );
    assert_eq!(folder_of(b"/a/x"), b"/a".to_vec());
    assert_eq!(folder_of(b"/x"), b"/".to_vec());
    assert_eq!(folder_of(b"/"), b"/".to_vec());
}
