//! Running a command on the results.

use spoor::runs::{batches, exit_status, split, substitute, Exec, BATCH_BYTES};

fn args(v: &[&str]) -> Vec<String> {
    v.iter().map(|s| s.to_string()).collect()
}

fn template(e: &Exec) -> Vec<String> {
    e.template.clone()
}

#[test]
fn no_exec_leaves_the_arguments_alone() {
    let (rest, exec) = split(&args(&["spoor", "query", "report"])).unwrap();
    assert!(exec.is_none());
    assert_eq!(rest, args(&["spoor", "query", "report"]));
}

#[test]
fn semicolon_runs_once_per_result() {
    let (rest, exec) = split(&args(&["spoor", "query", "a", "-exec", "rm", "{}", ";"])).unwrap();
    let exec = exec.unwrap();
    assert!(!exec.batch);
    assert_eq!(template(&exec), args(&["rm", "{}"]));
    assert_eq!(rest, args(&["spoor", "query", "a"]));
}

#[test]
fn plus_runs_once_for_all() {
    let (_, exec) = split(&args(&[
        "spoor", "query", "a", "-exec", "rm", "-f", "{}", "+",
    ]))
    .unwrap();
    let exec = exec.unwrap();
    assert!(exec.batch);
    assert_eq!(template(&exec), args(&["rm", "-f", "{}"]));
}

#[test]
fn flags_after_the_clause_survive() {
    let (rest, exec) = split(&args(&[
        "spoor", "query", "a", "-exec", "echo", "{}", ";", "--limit", "5",
    ]))
    .unwrap();
    assert!(exec.is_some());
    assert_eq!(rest, args(&["spoor", "query", "a", "--limit", "5"]));
}

#[test]
fn an_unfinished_clause_is_refused() {
    let e = split(&args(&["spoor", "query", "a", "-exec", "rm", "{}"])).unwrap_err();
    assert!(e.contains("';'"), "{}", e);
    assert!(split(&args(&["spoor", "query", "a", "-exec", ";"])).is_err());
}

#[test]
fn plus_needs_the_braces_last() {
    let e = split(&args(&[
        "spoor", "query", "a", "-exec", "cp", "{}", "there", "+",
    ]))
    .unwrap_err();
    assert!(e.contains("last argument"), "{}", e);
}

#[test]
fn braces_are_replaced_everywhere_in_an_argument() {
    let got = substitute(b"{}.bak", b"/tmp/a b");
    assert_eq!(got, b"/tmp/a b.bak");
    let twice = substitute(b"{}:{}", b"/x");
    assert_eq!(twice, b"/x:/x");
    let none = substitute(b"-v", b"/x");
    assert_eq!(none, b"-v");
}

#[test]
fn a_name_that_is_not_utf8_survives_substitution() {
    let got = substitute(b"{}", b"/tmp/\xff\xfe");
    assert_eq!(got, b"/tmp/\xff\xfe");
}

#[test]
fn batches_fill_up_to_the_budget() {
    let paths: Vec<Vec<u8>> = (0..5).map(|i| vec![b'a' + i; 9]).collect();
    // base 10, each name 10 bytes with its separator: two per run of 30.
    let runs = batches(&paths, 10, 30);
    assert_eq!(runs.len(), 3);
    assert_eq!(runs[0].len(), 2);
    assert_eq!(runs[2].len(), 1);
    // Everything fits in one run when the budget is large.
    assert_eq!(batches(&paths, 10, 1 << 20).len(), 1);
}

#[test]
fn a_name_longer_than_the_budget_still_goes_out() {
    let paths = vec![vec![b'x'; 100], vec![b'y'; 100]];
    let runs = batches(&paths, 0, 10);
    assert_eq!(runs.len(), 2);
    assert_eq!(runs[0].len(), 1);
}

#[test]
fn the_message_says_how_to_end_a_clause() {
    assert_eq!(
        split(&args(&["-exec", "rm"])).unwrap_err(),
        "-exec needs a ';' or a '+' at the end of the command (the shell eats a bare ';', so write '\\;')"
    );
    assert_eq!(
        split(&args(&["-exec", "+"])).unwrap_err(),
        "-exec needs a command"
    );
}

#[test]
fn commands_carry_the_names() {
    let names = vec![b"/a b".to_vec(), b"/c".to_vec()];
    let each = Exec {
        template: args(&["cp", "{}", "{}.bak"]),
        batch: false,
    };
    assert_eq!(
        each.commands(&names),
        vec![
            vec![b"cp".to_vec(), b"/a b".to_vec(), b"/a b.bak".to_vec()],
            vec![b"cp".to_vec(), b"/c".to_vec(), b"/c.bak".to_vec()],
        ]
    );
    let all = Exec {
        template: args(&["rm", "-f", "{}"]),
        batch: true,
    };
    assert_eq!(
        all.commands(&names),
        vec![vec![
            b"rm".to_vec(),
            b"-f".to_vec(),
            b"/a b".to_vec(),
            b"/c".to_vec()
        ]]
    );
    assert!(all.commands(&[]).is_empty());
    assert!(each.commands(&[]).is_empty());
    // long lists go out in several runs, and nothing is left behind
    let many: Vec<Vec<u8>> = (0..3000).map(|_| vec![b'n'; 99]).collect();
    let runs = all.commands(&many);
    assert!(runs.len() > 1);
    assert_eq!(runs.iter().map(|r| r.len() - 2).sum::<usize>(), 3000);
    for r in &runs {
        assert!(r.iter().map(|a| a.len() + 1).sum::<usize>() <= BATCH_BYTES);
    }
}

#[test]
fn names_alone_make_a_command() {
    let (rest, exec) = split(&args(&["q", "-exec", "{}", "+"])).unwrap();
    assert_eq!(rest, args(&["q"]));
    let names = vec![b"/bin/a".to_vec(), b"/b".to_vec()];
    assert_eq!(exec.unwrap().commands(&names), vec![names]);
}

#[test]
fn one_failure_fails_all() {
    assert_eq!(exit_status(&[]), 0);
    assert_eq!(exit_status(&[true, true]), 0);
    assert_eq!(exit_status(&[true, false, true]), 1);
    assert_eq!(exit_status(&[false]), 1);
}
