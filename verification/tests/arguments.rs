//! The command line.

use spoor::args::{
    arg_value, arg_values, has_flag, is_value_flag, number_value, positionals, query_limit,
    query_opts,
};
use spoor::options::{Kind, SearchOpts};
use spoor::protocol::MAX_LIMIT;

fn args(v: &[&str]) -> Vec<String> {
    v.iter().map(|s| s.to_string()).collect()
}

#[test]
fn flags_and_their_values_are_told_from_the_rest() {
    let a = args(&[
        "spoor", "query", "a", "--limit", "5", "--case", "b c", "--socket", "/s", "-x",
    ]);
    assert_eq!(positionals(&a), vec!["a", "b c", "-x"]);
    assert_eq!(arg_value(&a, "--socket").as_deref(), Some("/s"));
    assert_eq!(arg_value(&a, "--state"), None);
    assert_eq!(number_value(&a, "--limit"), Some(5));
    assert_eq!(number_value(&a, "--socket"), None);
    assert!(has_flag(&a, "--case") && !has_flag(&a, "--regex"));
    assert!(!has_flag(&a, "query"), "the subcommand is no switch");
    assert!(is_value_flag("--reconcile-interval") && !is_value_flag("--case"));
    assert!(positionals(&args(&["spoor"])).is_empty());
    assert!(positionals(&args(&["spoor", "query", "--limit"])).is_empty());
    assert_eq!(arg_value(&args(&["spoor", "query", "--limit"]), "--limit"), None);
}

#[test]
fn repeated_flags_add_up() {
    let a = args(&["spoor", "daemon", "--root", "/a", "--no-watch", "--root", "/b", "--root"]);
    assert_eq!(arg_values(&a, "--root"), vec!["/a", "/b"]);
    assert_eq!(arg_value(&a, "--root").as_deref(), Some("/a"));
    assert!(arg_values(&a, "--rescan").is_empty());
    assert!(arg_values(&[], "--root").is_empty());
}

#[test]
fn every_match_is_acted_on() {
    let plain = args(&["spoor", "query", "a"]);
    assert_eq!(query_limit(&plain, false), 100);
    assert_eq!(query_limit(&plain, true), MAX_LIMIT);
    let said = args(&["spoor", "query", "a", "--limit", "7"]);
    assert_eq!(query_limit(&said, true), 7);
    let odd = args(&["spoor", "query", "a", "--limit", "many"]);
    assert_eq!(query_limit(&odd, false), 100);
}

#[test]
fn switches_stand_for_options() {
    let a = args(&["spoor", "query", "a", "--case", "--folders", "--no-hidden"]);
    assert_eq!(
        query_opts(&a),
        SearchOpts {
            match_case: true,
            kind: Kind::Folders,
            hide_hidden: true,
            ..SearchOpts::default()
        }
    );
    let both = args(&["spoor", "query", "--files", "--folders", "--regex", "--path"]);
    let o = query_opts(&both);
    assert_eq!(o.kind, Kind::Files);
    assert!(o.regex && o.in_path);
}
