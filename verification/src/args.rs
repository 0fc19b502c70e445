//! The command line.

use vstd::prelude::*;
use crate::options::{Kind, SearchOpts};
use crate::protocol::MAX_LIMIT;
use crate::text::{
    chars_of, decimal, lemma_number_of_decimal, number, parse_number, same_text, texts,
};

verus! {

pub const DEFAULT_SOCK: &'static str = "/run/spoor.sock";

pub const DEFAULT_STATE: &'static str = "/var/lib/spoor/index.bin";

/// Flags that consume the following argument; any other "--x" is a switch.
pub open spec fn takes_value(a: Seq<char>) -> bool {
    a == "--config"@ || a == "--exclude"@ || a == "--socket"@ || a == "--limit"@ || a == "--n"@ || a
        == "--root"@ || a == "--state"@ || a == "--save-interval"@ || a == "--duration"@ || a
        == "--opts"@ || a == "--rescan"@ || a == "--rescan-interval"@ || a
        == "--reconcile-interval"@
}

/// Does the flag `a` consume the following argument?
pub fn is_value_flag(a: &str) -> (r: bool)
    ensures
        r == takes_value(a@),
{
    same_text(a, "--config") || same_text(a, "--exclude") || same_text(a, "--socket") || same_text(
        a,
        "--limit",
    ) || same_text(a, "--n") || same_text(a, "--root") || same_text(a, "--state") || same_text(
        a,
        "--save-interval",
    ) || same_text(a, "--duration") || same_text(a, "--opts") || same_text(a, "--rescan")
        || same_text(a, "--rescan-interval") || same_text(a, "--reconcile-interval")
}

/// Every argument that follows a `flag` among the first `k`.
pub open spec fn values_of(args: Seq<Seq<char>>, flag: Seq<char>, k: nat) -> Seq<Seq<char>>
    decreases k,
{
    if k < 2 {
        seq![]
    } else {
        let before = values_of(args, flag, (k - 1) as nat);
        if args[k - 2] == flag {
            before.push(args[k - 1])
        } else {
            before
        }
    }
}

/// Every value of a repeatable flag.
pub fn arg_values(args: &[String], flag: &str) -> (out: Vec<String>)
    ensures
        texts(out@) == values_of(texts(args@), flag@, args@.len()),
{
    let ghost all = texts(args@);
    let mut out: Vec<String> = Vec::new();
    let mut i: usize = 1;
    assert(texts(out@) =~= values_of(all, flag@, 1));
    if args.len() == 0 {
        assert(texts(out@) =~= values_of(all, flag@, 0));
        return out;
    }
    while i < args.len()
        invariant
            1 <= i <= args@.len(),
            all == texts(args@),
            texts(out@) == values_of(all, flag@, i as nat),
        decreases args@.len() - i,
    {
        assert(all[i - 1] == args@[i - 1]@ && all[i as int] == args@[i as int]@);
        if same_text(args[i - 1].as_str(), flag) {
            let ghost before = texts(out@);
            let v = args[i].clone();
            out.push(v);
            assert(texts(out@) =~= before.push(v@));
        }
        i = i + 1;
    }
    out
}

/// What follows the first `flag`.
pub open spec fn value_of(args: Seq<Seq<char>>, flag: Seq<char>) -> Option<Seq<char>> {
    let at = crate::split::first_of(args, flag) as int;
    if at + 1 < args.len() {
        Some(args[at + 1])
    } else {
        None
    }
}

/// The value of a flag.
pub fn arg_value(args: &[String], flag: &str) -> (r: Option<String>)
    ensures
        match r {
            Some(v) => value_of(texts(args@), flag@) == Some(v@),
            None => value_of(texts(args@), flag@) is None,
        },
{
    let ghost all = texts(args@);
    let mut i: usize = 0;
    while i < args.len()
        invariant
            i <= args@.len(),
            all == texts(args@),
            forall|k: int| 0 <= k < i ==> #[trigger] all[k] != flag@,
        decreases args@.len() - i,
    {
        assert(all[i as int] == args@[i as int]@);
        if same_text(args[i].as_str(), flag) {
            proof {
                crate::split::lemma_first_of_is(all, flag@, i as int);
            }
            if args.len() - i > 1 {
                assert(all[i + 1] == args@[i + 1]@);
                return Some(args[i + 1].clone());
            }
            return None;
        }
        i = i + 1;
    }
    proof {
        crate::split::lemma_first_of_is(all, flag@, i as int);
    }
    None
}

/// A switch is given, behind the subcommand.
pub open spec fn switched(args: Seq<Seq<char>>, flag: Seq<char>) -> bool {
    exists|i: int| 2 <= i < args.len() && #[trigger] args[i] == flag
}

/// Is a switch given, behind the subcommand?
pub fn has_flag(args: &[String], flag: &str) -> (r: bool)
    ensures
        r == switched(texts(args@), flag@),
{
    let ghost all = texts(args@);
    let mut i: usize = 2;
    while i < args.len()
        invariant
            2 <= i,
            all == texts(args@),
            forall|k: int| 2 <= k < i && k < all.len() ==> #[trigger] all[k] != flag@,
        decreases args@.len() - i,
    {
        assert(all[i as int] == args@[i as int]@);
        if same_text(args[i].as_str(), flag) {
            return true;
        }
        i = i + 1;
    }
    false
}

/// A switch is given, anywhere.
pub open spec fn given(args: Seq<Seq<char>>, flag: Seq<char>) -> bool {
    args.contains(flag)
}

/// Is a switch given, anywhere?
pub fn is_given(args: &[String], flag: &str) -> (r: bool)
    ensures
        r == given(texts(args@), flag@),
{
    let ghost all = texts(args@);
    let mut i: usize = 0;
    while i < args.len()
        invariant
            i <= args@.len(),
            all == texts(args@),
            forall|k: int| 0 <= k < i ==> #[trigger] all[k] != flag@,
        decreases args@.len() - i,
    {
        assert(all[i as int] == args@[i as int]@);
        if same_text(args[i].as_str(), flag) {
            return true;
        }
        i = i + 1;
    }
    false
}

/// Starts with `--`.
pub open spec fn dashed(a: Seq<char>) -> bool {
    a.len() >= 2 && a[0] == '-' && a[1] == '-'
}

fn is_dashed(a: &str) -> (r: bool)
    ensures
        r == dashed(a@),
{
    let s = chars_of(a);
    s.len() >= 2 && s[0] == '-' && s[1] == '-'
}

/// The arguments from `i` on that are neither flags nor flag values.
pub open spec fn plain_from(args: Seq<Seq<char>>, i: int) -> Seq<Seq<char>>
    decreases args.len() + 1 - i,
{
    if i >= args.len() {
        seq![]
    } else if takes_value(args[i]) {
        plain_from(args, i + 2)
    } else if dashed(args[i]) {
        plain_from(args, i + 1)
    } else {
        seq![args[i]] + plain_from(args, i + 1)
    }
}

/// What is given after the subcommand besides flags and their values.
pub open spec fn patterns_given(args: Seq<Seq<char>>) -> Seq<Seq<char>> {
    plain_from(args, 2)
}

/// Arguments after the subcommand that are neither flags nor flag values.
pub fn positionals(args: &[String]) -> (out: Vec<String>)
    ensures
        texts(out@) == patterns_given(texts(args@)),
{
    let ghost all = texts(args@);
    let ghost goal = plain_from(all, 2);
    let mut out: Vec<String> = Vec::new();
    let mut i: usize = 2;
    assert(texts(out@) + goal =~= goal);
    while i < args.len()
        invariant
            2 <= i,
            all == texts(args@),
            goal == plain_from(all, 2),
            texts(out@) + plain_from(all, i as int) == goal,
        decreases args@.len() - i,
    {
        assert(all[i as int] == args@[i as int]@);
        if is_value_flag(args[i].as_str()) {
            if args.len() - i < 2 {
                assert(plain_from(all, i + 2) =~= Seq::<Seq<char>>::empty());
                assert(texts(out@) =~= goal);
                return out;
            }
            i = i + 2;
        } else {
            if !is_dashed(args[i].as_str()) {
                let ghost before = texts(out@);
                let a = args[i].clone();
                out.push(a);
                proof {
                    assert(texts(out@) =~= before.push(a@));
                    assert(texts(out@) + plain_from(all, i + 1) =~= before + plain_from(
                        all,
                        i as int,
                    ));
                }
            }
            i = i + 1;
        }
    }
    assert(texts(out@) =~= goal);
    out
}

/// A number given with a flag, or `other`.
pub open spec fn number_or(args: Seq<Seq<char>>, flag: Seq<char>, max: nat, other: nat) -> nat {
    match value_of(args, flag) {
        Some(v) => match number(v, max) {
            Some(n) => n,
            None => other,
        },
        None => other,
    }
}

/// A number given with a flag, if there is one.
pub open spec fn number_given(args: Seq<Seq<char>>, flag: Seq<char>) -> Option<u64> {
    match value_of(args, flag) {
        Some(v) => match number(v, u64::MAX as nat) {
            Some(n) => Some(n as u64),
            None => None,
        },
        None => None,
    }
}

/// A number given with a flag; None where there is none or it is not one.
pub fn number_value(args: &[String], flag: &str) -> (r: Option<u64>)
    ensures
        r == number_given(texts(args@), flag@),
{
    match arg_value(args, flag) {
        Some(v) => {
            let s = chars_of(v.as_str());
            assert(s@.subrange(0, s@.len() as int) =~= s@);
            parse_number(&s, 0, s.len(), u64::MAX)
        },
        None => None,
    }
}

/// How many results are asked for.
pub open spec fn limit_asked(args: Seq<Seq<char>>, acting: bool) -> nat {
    number_or(
        args,
        "--limit"@,
        usize::MAX as nat,
        if acting {
            MAX_LIMIT as nat
        } else {
            100
        },
    )
}

/// How many results are asked for: what was said, or a hundred; with a command
/// to run on them, every match is acted on.
pub fn query_limit(args: &[String], acting: bool) -> (n: usize)
    ensures
        n == limit_asked(texts(args@), acting),
{
    let other: usize = if acting {
        MAX_LIMIT
    } else {
        100
    };
    match arg_value(args, "--limit") {
        Some(v) => {
            let s = chars_of(v.as_str());
            assert(s@.subrange(0, s@.len() as int) =~= s@);
            match parse_number(&s, 0, s.len(), usize::MAX as u64) {
                Some(n) => n as usize,
                None => other,
            }
        },
        None => other,
    }
}

/// The search options that the switches stand for.
pub open spec fn opts_asked(args: Seq<Seq<char>>) -> SearchOpts {
    SearchOpts {
        match_case: switched(args, "--case"@),
        regex: switched(args, "--regex"@),
        in_path: switched(args, "--path"@),
        kind: if switched(args, "--files"@) {
            Kind::Files
        } else if switched(args, "--folders"@) {
            Kind::Folders
        } else {
            Kind::All
        },
        hide_hidden: switched(args, "--no-hidden"@),
    }
}

/// The search options that the switches stand for.
pub fn query_opts(args: &[String]) -> (o: SearchOpts)
    ensures
        o == opts_asked(texts(args@)),
{
    let kind = if has_flag(args, "--files") {
        Kind::Files
    } else if has_flag(args, "--folders") {
        Kind::Folders
    } else {
        Kind::All
    };
    SearchOpts {
        match_case: has_flag(args, "--case"),
        regex: has_flag(args, "--regex"),
        in_path: has_flag(args, "--path"),
        kind,
        hide_hidden: has_flag(args, "--no-hidden"),
    }
}

// Laws.

/// A word is among the arguments behind the subcommand.
pub open spec fn said(args: Seq<Seq<char>>, word: Seq<char>) -> bool {
    args.len() > 2 && args.skip(2).contains(word)
}

/// A search is asked for as the switches say, wherever behind the subcommand
/// they stand.
pub proof fn switches_stand_for_options(args: Seq<Seq<char>>)
    ensures
        opts_asked(args).match_case <==> said(args, "--case"@),
        opts_asked(args).regex <==> said(args, "--regex"@),
        opts_asked(args).in_path <==> said(args, "--path"@),
        opts_asked(args).hide_hidden <==> said(args, "--no-hidden"@),
        opts_asked(args).kind == Kind::Files <==> said(args, "--files"@),
        opts_asked(args).kind == Kind::Folders <==> said(args, "--folders"@) && !said(
            args,
            "--files"@,
        ),
{
    lemma_switched(args, "--case"@);
    lemma_switched(args, "--regex"@);
    lemma_switched(args, "--path"@);
    lemma_switched(args, "--no-hidden"@);
    lemma_switched(args, "--files"@);
    lemma_switched(args, "--folders"@);
}

proof fn lemma_switched(args: Seq<Seq<char>>, flag: Seq<char>)
    ensures
        switched(args, flag) <==> said(args, flag),
{
    if switched(args, flag) {
        let i = choose|i: int| 2 <= i < args.len() && #[trigger] args[i] == flag;
        assert(args.skip(2)[i - 2] == flag);
    }
    if said(args, flag) {
        let i = choose|i: int| 0 <= i < args.skip(2).len() && args.skip(2)[i] == flag;
        assert(args[i + 2] == flag);
    }
}

/// A switch counts behind the subcommand, and nowhere else.
pub proof fn switches_count_behind_the_subcommand(args: Seq<Seq<char>>, flag: Seq<char>, i: int)
    ensures
        2 <= i < args.len() && args[i] == flag ==> switched(args, flag),
        args.len() <= 2 ==> !switched(args, flag),
        switched(args, flag) ==> given(args, flag),
        given(args, flag) <==> args.contains(flag),
{
    if switched(args, flag) {
        let k = choose|k: int| 2 <= k < args.len() && #[trigger] args[k] == flag;
        assert(args.contains(args[k]));
    }
}

/// The value of a flag is what stands behind its first occurrence.
pub proof fn values_follow_their_flag(
    before: Seq<Seq<char>>,
    flag: Seq<char>,
    value: Seq<char>,
    after: Seq<Seq<char>>,
)
    requires
        !before.contains(flag),
    ensures
        value_of(before + seq![flag, value] + after, flag) == Some(value),
        value_of(before + seq![flag], flag) is None,
        value_of(before, flag) is None,
{
    let args = before + seq![flag, value] + after;
    let short = before + seq![flag];
    assert forall|i: int| 0 <= i < before.len() implies #[trigger] before[i] != flag && args[i]
        != flag && short[i] != flag by {
        assert(before.contains(before[i]));
        assert(args[i] == before[i] && short[i] == before[i]);
    }
    crate::split::lemma_first_of_is(before, flag, before.len() as int);
    assert forall|i: int| 0 <= i < before.len() implies #[trigger] args[i] != flag by {
        assert(before[i] != flag);
    }
    assert forall|i: int| 0 <= i < before.len() implies #[trigger] short[i] != flag by {
        assert(before[i] != flag);
    }
    assert(args[before.len() as int] == flag);
    assert(short[before.len() as int] == flag);
    crate::split::lemma_first_of_is(args, flag, before.len() as int);
    crate::split::lemma_first_of_is(short, flag, before.len() as int);
    assert(args[before.len() as int + 1] == value);
}

/// Every occurrence of a flag gives a value: what stands behind it, in order.
pub proof fn flags_may_be_repeated(args: Seq<Seq<char>>, flag: Seq<char>, value: Seq<char>)
    requires
        args.len() > 0,
    ensures
        values_of(args.push(value), flag, args.len() + 1) == (if args.last() == flag {
            values_of(args, flag, args.len()).push(value)
        } else {
            values_of(args, flag, args.len())
        }),
        values_of(args, flag, 0) == Seq::<Seq<char>>::empty(),
        values_of(args, flag, 1) == Seq::<Seq<char>>::empty(),
{
    lemma_values_fewer(args, flag, value, args.len());
}

proof fn lemma_values_fewer(args: Seq<Seq<char>>, flag: Seq<char>, value: Seq<char>, k: nat)
    requires
        k <= args.len(),
    ensures
        values_of(args.push(value), flag, k) == values_of(args, flag, k),
    decreases k,
{
    if k >= 2 {
        lemma_values_fewer(args, flag, value, (k - 1) as nat);
    }
}

/// A number is taken from behind its flag; without the flag, and where what
/// follows it is no number, there is none.
pub proof fn numbers_follow_their_flag(
    before: Seq<Seq<char>>,
    flag: Seq<char>,
    n: nat,
    other: Seq<char>,
    after: Seq<Seq<char>>,
)
    requires
        !before.contains(flag),
        n <= u64::MAX,
        other.len() == 0 || !('0' <= other.last() <= '9'),
    ensures
        number_given(before + seq![flag, decimal(n)] + after, flag) == Some(n as u64),
        number_given(before + seq![flag, other] + after, flag) is None,
        number_given(before, flag) is None,
{
    values_follow_their_flag(before, flag, decimal(n), after);
    values_follow_their_flag(before, flag, other, after);
    lemma_number_of_decimal(n, u64::MAX as nat);
    lemma_no_number(other, u64::MAX as nat);
}

proof fn lemma_no_number(s: Seq<char>, max: nat)
    requires
        s.len() == 0 || !('0' <= s.last() <= '9'),
    ensures
        number(s, max) is None,
{
    let d = crate::text::unsigned(s);
    if d.len() > 0 && crate::text::all_digits(d) {
        assert(crate::text::is_digit(d[d.len() - 1]));
        assert(d.last() == s.last());
    }
}

/// As many results are asked for as `--limit` says; if it says nothing, a
/// hundred, or as many as there can be where they are acted on.
pub proof fn limits_are_taken_from_the_flag(
    before: Seq<Seq<char>>,
    n: nat,
    other: Seq<char>,
    after: Seq<Seq<char>>,
    acting: bool,
)
    requires
        !before.contains("--limit"@),
        n <= usize::MAX,
        other.len() == 0 || !('0' <= other.last() <= '9'),
    ensures
        limit_asked(before + seq!["--limit"@, decimal(n)] + after, acting) == n,
        limit_asked(before, acting) == (if acting {
            100_000nat
        } else {
            100
        }),
        limit_asked(before + seq!["--limit"@, other] + after, acting) == limit_asked(before, acting),
{
    values_follow_their_flag(before, "--limit"@, decimal(n), after);
    values_follow_their_flag(before, "--limit"@, other, after);
    lemma_number_of_decimal(n, usize::MAX as nat);
    lemma_no_number(other, usize::MAX as nat);
}

/// What starts with two dashes is a flag, and what follows a flag that takes a
/// value is that value; everything else is searched for.
pub proof fn patterns_are_what_is_left(args: Seq<Seq<char>>, i: int)
    requires
        0 <= i < args.len(),
    ensures
        args[i].len() < 2 || args[i][0] != '-' || args[i][1] != '-' ==> plain_from(args, i) == seq![
            args[i],
        ] + plain_from(args, i + 1),
        args[i].len() >= 2 && args[i][0] == '-' && args[i][1] == '-' ==> plain_from(args, i)
            == plain_from(args, i + 1) || plain_from(args, i) == plain_from(args, i + 2),
        args[i] == "--limit"@ || args[i] == "--socket"@ || args[i] == "--root"@ || args[i]
            == "--exclude"@ || args[i] == "--config"@ || args[i] == "--state"@ || args[i]
            == "--rescan"@ || args[i] == "--opts"@ || args[i] == "--n"@ || args[i]
            == "--duration"@ || args[i] == "--save-interval"@ || args[i]
            == "--rescan-interval"@ || args[i] == "--reconcile-interval"@ ==> plain_from(args, i)
            == plain_from(args, i + 2),
        args[i] == "--case"@ || args[i] == "--regex"@ || args[i] == "--path"@ || args[i]
            == "--files"@ || args[i] == "--folders"@ || args[i] == "--no-hidden"@ ==> plain_from(
            args,
            i,
        ) == plain_from(args, i + 1),
        plain_from(args, args.len() as int) == Seq::<Seq<char>>::empty(),
{
    lemma_flag_texts();
}

proof fn lemma_flag_texts()
    ensures
        forall|a: Seq<char>| #[trigger] takes_value(a) ==> dashed(a),
        !takes_value("--case"@) && dashed("--case"@),
        !takes_value("--regex"@) && dashed("--regex"@),
        !takes_value("--path"@) && dashed("--path"@),
        !takes_value("--files"@) && dashed("--files"@),
        !takes_value("--folders"@) && dashed("--folders"@),
        !takes_value("--no-hidden"@) && dashed("--no-hidden"@),
{
    reveal_strlit("--config");
    reveal_strlit("--exclude");
    reveal_strlit("--socket");
    reveal_strlit("--limit");
    reveal_strlit("--n");
    reveal_strlit("--root");
    reveal_strlit("--state");
    reveal_strlit("--save-interval");
    reveal_strlit("--duration");
    reveal_strlit("--opts");
    reveal_strlit("--rescan");
    reveal_strlit("--rescan-interval");
    reveal_strlit("--reconcile-interval");
    reveal_strlit("--case");
    reveal_strlit("--regex");
    reveal_strlit("--path");
    reveal_strlit("--files");
    reveal_strlit("--folders");
    reveal_strlit("--no-hidden");
    assert("--config"@.len() == 8 && "--config"@[2] == 'c');
    assert("--exclude"@.len() == 9 && "--exclude"@[2] == 'e');
    assert("--socket"@.len() == 8 && "--socket"@[2] == 's');
    assert("--limit"@.len() == 7 && "--limit"@[2] == 'l');
    assert("--n"@.len() == 3 && "--n"@[2] == 'n');
    assert("--root"@.len() == 6 && "--root"@[2] == 'r');
    assert("--state"@.len() == 7 && "--state"@[2] == 's');
    assert("--save-interval"@.len() == 15 && "--save-interval"@[2] == 's');
    assert("--duration"@.len() == 10 && "--duration"@[2] == 'd');
    assert("--opts"@.len() == 6 && "--opts"@[2] == 'o');
    assert("--rescan"@.len() == 8 && "--rescan"@[2] == 'r');
    assert("--rescan-interval"@.len() == 17 && "--rescan-interval"@[2] == 'r');
    assert("--reconcile-interval"@.len() == 20 && "--reconcile-interval"@[2] == 'r');
    assert("--case"@.len() == 6 && "--case"@[2] == 'c');
    assert("--regex"@.len() == 7 && "--regex"@[2] == 'r');
    assert("--path"@.len() == 6 && "--path"@[2] == 'p');
    assert("--files"@.len() == 7 && "--files"@[2] == 'f');
    assert("--folders"@.len() == 9 && "--folders"@[2] == 'f');
    assert("--no-hidden"@.len() == 11 && "--no-hidden"@[2] == 'n');
}

/// What is asked for starts behind the program and its subcommand: what stands there
/// first, unless it is a flag, is asked for first.
pub proof fn patterns_follow_the_subcommand(args: Seq<Seq<char>>)
    ensures
        args.len() <= 2 ==> patterns_given(args) == Seq::<Seq<char>>::empty(),
        args.len() > 2 && (args[2].len() < 2 || args[2][0] != '-' || args[2][1] != '-') ==> {
            &&& patterns_given(args).len() > 0
            &&& patterns_given(args)[0] == args[2]
            &&& args.len() == 3 ==> patterns_given(args) == seq![args[2]]
        },
{
    lemma_flag_texts();
    if args.len() == 3 {
        assert(plain_from(args, 3) =~= Seq::<Seq<char>>::empty());
        assert(seq![args[2]] + plain_from(args, 3) =~= seq![args[2]]);
    }
}

} // verus!
