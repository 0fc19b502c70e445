//! `-exec` for `spoor query`, spelled as find spells it.
//!
//!   spoor query invoice -exec cp {} ~/backup/ \;   one run per result
//!   spoor query .log    -exec rm {} +              one run for all of them
//!
//! The command is started directly, never through a shell, so a name holding
//! spaces, quotes or a newline needs no escaping and can do no harm. Names are
//! passed as raw bytes: a file name need not be UTF-8, and a lossy copy would
//! name a different file, or none.

use vstd::prelude::*;
use vstd::utf8::{encode_utf8, is_ascii_chars_encode_utf8};
use crate::bytes::{append, copy, views};
use crate::text::{same_text, texts};

verus! {

/// As much as one command line may carry, in bytes of arguments. The kernel
/// allows more, but xargs has settled on this for decades and a batch that
/// fits it also fits the smallest system we are likely to meet.
pub const BATCH_BYTES: usize = 131072;

/// What is to be run over the results.
#[derive(Debug)]
pub struct Exec {
    /// The command and its arguments, `{}` still in place.
    pub template: Vec<String>,
    /// `+`: one run carrying every result. `;`: one run per result.
    pub batch: bool,
}

// Finding the clause.

/// Ends a clause.
pub open spec fn ends_clause(arg: Seq<char>) -> bool {
    arg == ";"@ || arg == "+"@
}

/// Where the clause starts; the number of arguments if there is none.
pub open spec fn clause_start(args: Seq<Seq<char>>) -> nat {
    crate::split::first_of(args, "-exec"@)
}

/// The first terminator at or behind `from`; the number of arguments if there
/// is none.
pub open spec fn clause_end(args: Seq<Seq<char>>, from: nat) -> nat
    decreases args.len() - from,
{
    if from >= args.len() {
        args.len()
    } else if ends_clause(args[from as int]) {
        from
    } else {
        clause_end(args, from + 1)
    }
}

/// The arguments without the clause, and the clause: its template, and whether
/// one run carries every result.
pub open spec fn clause_of(args: Seq<Seq<char>>) -> Result<
    (Seq<Seq<char>>, Option<(Seq<Seq<char>>, bool)>),
    Seq<char>,
> {
    let at = clause_start(args) as int;
    let end = clause_end(args, (at + 1) as nat) as int;
    if at >= args.len() {
        Ok((args, None))
    } else if end >= args.len() {
        Err(
            "-exec needs a ';' or a '+' at the end of the command (the shell eats a bare ';', so write '\\;')"@,
        )
    } else {
        let template = args.subrange(at + 1, end);
        let batch = args[end] == "+"@;
        if template.len() == 0 {
            Err("-exec needs a command"@)
        } else if batch && template.last() != "{}"@ {
            Err(
                "-exec ... + needs {} as the last argument, so the names can be added there"@,
            )
        } else {
            Ok((args.take(at) + args.skip(end + 1), Some((template, batch))))
        }
    }
}

/// Copies `args[from..to]` behind `out`.
fn push_args(out: &mut Vec<String>, args: &[String], from: usize, to: usize)
    requires
        from <= to <= args.len(),
    ensures
        texts(final(out)@) == texts(old(out)@) + texts(args@).subrange(from as int, to as int),
{
    let ghost all = texts(args@);
    let mut i: usize = from;
    assert(texts(out@) =~= texts(old(out)@) + all.subrange(from as int, from as int));
    while i < to
        invariant
            from <= i <= to <= args.len(),
            all == texts(args@),
            texts(out@) == texts(old(out)@) + all.subrange(from as int, i as int),
        decreases to - i,
    {
        let ghost before = texts(out@);
        let s = args[i].clone();
        out.push(s);
        proof {
            assert(texts(out@) =~= before.push(s@));
            assert(all.subrange(from as int, i + 1) =~= all.subrange(from as int, i as int).push(
                all[i as int],
            ));
        }
        i = i + 1;
    }
}

/// The first argument that is `-exec`; the number of arguments if there is
/// none.
fn find_exec(args: &[String]) -> (at: usize)
    ensures
        at == clause_start(texts(args@)),
        at <= args@.len(),
{
    let ghost all = texts(args@);
    let mut i: usize = 0;
    while i < args.len()
        invariant
            i <= args.len(),
            all == texts(args@),
            forall|k: int| 0 <= k < i ==> #[trigger] all[k] != "-exec"@,
        decreases args.len() - i,
    {
        assert(all[i as int] == args@[i as int]@);
        if same_text(args[i].as_str(), "-exec") {
            proof {
                crate::split::lemma_first_of_is(all, "-exec"@, i as int);
            }
            return i;
        }
        i = i + 1;
    }
    proof {
        crate::split::lemma_first_of_is(all, "-exec"@, i as int);
    }
    i
}

/// The first terminator at or behind `from`; the number of arguments if there
/// is none.
fn find_end(args: &[String], from: usize) -> (end: usize)
    requires
        from <= args.len(),
    ensures
        end == clause_end(texts(args@), from as nat),
        from <= end <= args@.len(),
        end < args@.len() ==> ends_clause(texts(args@)[end as int]),
{
    let ghost all = texts(args@);
    let mut i: usize = from;
    while i < args.len()
        invariant
            from <= i <= args.len(),
            all == texts(args@),
            clause_end(all, i as nat) == clause_end(all, from as nat),
        decreases args.len() - i,
    {
        assert(all[i as int] == args@[i as int]@);
        if same_text(args[i].as_str(), ";") || same_text(args[i].as_str(), "+") {
            return i;
        }
        i = i + 1;
    }
    i
}

/// Takes the `-exec ... ;` or `-exec ... +` clause out of the arguments,
/// leaving the rest for the ordinary flags. An unfinished clause is an error,
/// as in find: without a terminator we cannot tell where the command ends.
pub fn split(args: &[String]) -> (r: Result<(Vec<String>, Option<Exec>), String>)
    ensures
        match r {
            Ok((rest, Some(e))) => clause_of(texts(args@)) == Ok::<_, Seq<char>>(
                (texts(rest@), Some((texts(e.template@), e.batch))),
            ),
            Ok((rest, None)) => clause_of(texts(args@)) == Ok::<_, Seq<char>>(
                (texts(rest@), None::<(Seq<Seq<char>>, bool)>),
            ),
            Err(e) => clause_of(texts(args@)) == Err::<
                (Seq<Seq<char>>, Option<(Seq<Seq<char>>, bool)>),
                _,
            >(e@),
        },
        r matches Ok((_, Some(e))) ==> e.runnable(),
{
    let ghost all = texts(args@);
    let at = find_exec(args);
    let mut rest: Vec<String> = Vec::new();
    assert(texts(rest@) =~= Seq::<Seq<char>>::empty());
    if at == args.len() {
        push_args(&mut rest, args, 0, at);
        assert(texts(rest@) =~= all);
        return Ok((rest, None));
    }
    let end = find_end(args, at + 1);
    if end == args.len() {
        return Err(
            "-exec needs a ';' or a '+' at the end of the command (the shell eats a bare ';', so write '\\;')".to_owned(),
        );
    }
    let batch = same_text(args[end].as_str(), "+");
    assert(all[end as int] == args@[end as int]@);
    let mut template: Vec<String> = Vec::new();
    push_args(&mut template, args, at + 1, end);
    assert(texts(template@) =~= all.subrange(at + 1, end as int));
    if template.len() == 0 {
        return Err("-exec needs a command".to_owned());
    }
    assert(texts(template@).last() == template@.last()@);
    if batch && !same_text(template[template.len() - 1].as_str(), "{}") {
        return Err(
            "-exec ... + needs {} as the last argument, so the names can be added there".to_owned(),
        );
    }
    push_args(&mut rest, args, 0, at);
    push_args(&mut rest, args, end + 1, args.len());
    assert(texts(rest@) =~= all.take(at as int) + all.skip(end + 1));
    Ok((rest, Some(Exec { template, batch })))
}

// Filling in the names.

/// `{}`
pub open spec fn braces() -> Seq<u8> {
    seq![0x7b, 0x7d]
}

/// Every `{}` in `arg` replaced by `path`, from the left.
pub open spec fn filled(arg: Seq<u8>, path: Seq<u8>) -> Seq<u8>
    decreases arg.len(),
{
    if arg.len() == 0 {
        seq![]
    } else if arg.len() >= 2 && arg.take(2) == braces() {
        path + filled(arg.skip(2), path)
    } else {
        seq![arg[0]] + filled(arg.skip(1), path)
    }
}

/// Every `{}` in one argument replaced by the name, as GNU find does; an
/// argument may hold more than one, or none.
pub fn substitute(arg: &[u8], path: &[u8]) -> (out: Vec<u8>)
    ensures
        out@ == filled(arg@, path@),
{
    let mut out: Vec<u8> = Vec::new();
    let mut i: usize = 0;
    assert(arg@.skip(0) =~= arg@);
    assert(out@ + filled(arg@, path@) =~= filled(arg@, path@));
    while i < arg.len()
        invariant
            i <= arg.len(),
            out@ + filled(arg@.skip(i as int), path@) == filled(arg@, path@),
        decreases arg.len() - i,
    {
        let ghost rest = arg@.skip(i as int);
        let ghost before = out@;
        assert(rest[0] == arg@[i as int]);
        if arg.len() - i >= 2 && arg[i] == 0x7b && arg[i + 1] == 0x7d {
            assert(rest[1] == arg@[i + 1]);
            assert(rest.take(2) =~= braces());
            append(&mut out, path);
            assert(rest.skip(2) =~= arg@.skip(i + 2));
            assert(out@ + filled(rest.skip(2), path@) =~= before + filled(rest, path@));
            i = i + 2;
        } else {
            proof {
                if rest.len() >= 2 && rest.take(2) == braces() {
                    assert(rest.take(2)[0] == rest[0] && rest.take(2)[1] == rest[1]);
                    assert(rest[1] == arg@[i + 1]);
                }
            }
            out.push(arg[i]);
            assert(rest.skip(1) =~= arg@.skip(i + 1));
            assert(out@ + filled(rest.skip(1), path@) =~= before + filled(rest, path@));
            i = i + 1;
        }
    }
    assert(filled(arg@.skip(i as int), path@) =~= Seq::<u8>::empty());
    assert(out@ =~= filled(arg@, path@));
    out
}

// Filling up a run.

/// What names `from..to` take, each with its separator.
pub open spec fn cost(paths: Seq<Seq<u8>>, from: int, to: int) -> nat
    decreases to - from,
{
    if to <= from {
        0
    } else {
        cost(paths, from, to - 1) + paths[to - 1].len() + 1
    }
}

/// The starts of the runs among the first `k` names: a name opens a new run
/// when the open one is not empty and would not hold it.
pub open spec fn run_starts(paths: Seq<Seq<u8>>, base: nat, budget: nat, k: nat) -> Seq<int>
    decreases k,
{
    if k == 0 {
        seq![]
    } else {
        let before = run_starts(paths, base, budget, (k - 1) as nat);
        if before.len() == 0 || base + cost(paths, before.last(), k as int) > budget {
            before.push(k - 1)
        } else {
            before
        }
    }
}

/// A run of results: `from..to`.
#[derive(Clone, Copy, Debug, PartialEq, Eq, Structural)]
pub struct Run {
    pub from: usize,
    pub to: usize,
}

impl Run {
    /// How many results it carries.
    pub fn len(&self) -> (n: usize)
        requires
            self.from <= self.to,
        ensures
            n == self.to - self.from,
    {
        self.to - self.from
    }
}

/// The runs cut the results at the starts.
pub open spec fn cuts(runs: Seq<Run>, starts: Seq<int>, n: int) -> bool {
    &&& runs.len() == starts.len()
    &&& forall|i: int|
        #![trigger runs[i]]
        0 <= i < runs.len() ==> runs[i].from == starts[i] && runs[i].to == (if i + 1
            < starts.len() {
            starts[i + 1]
        } else {
            n
        })
}

proof fn lemma_cost_grows(paths: Seq<Seq<u8>>, from: int, mid: int, to: int)
    requires
        from <= mid <= to,
    ensures
        cost(paths, from, mid) <= cost(paths, from, to),
        cost(paths, mid, to) <= cost(paths, from, to),
    decreases to - mid,
{
    if mid < to {
        lemma_cost_grows(paths, from, mid, to - 1);
    } else {
        if from < to {
        }
        assert(cost(paths, mid, to) == 0);
    }
}

/// The results split into runs that each fit within `budget` bytes. A single
/// name longer than the budget still goes out on its own: dropping it would
/// be worse than one long command line.
pub fn batches(paths: &[Vec<u8>], base: usize, budget: usize) -> (runs: Vec<Run>)
    requires
        base + cost(views(paths@), 0, paths@.len() as int) <= usize::MAX,
    ensures
        cuts(
            runs@,
            run_starts(views(paths@), base as nat, budget as nat, paths@.len()),
            paths@.len() as int,
        ),
{
    let ghost all = views(paths@);
    let mut runs: Vec<Run> = Vec::new();
    let mut start: usize = 0;
    let mut size: usize = base;
    let mut i: usize = 0;
    let ghost mut starts: Seq<int> = seq![];
    while i < paths.len()
        invariant
            i <= paths.len(),
            all == views(paths@),
            base + cost(all, 0, paths@.len() as int) <= usize::MAX,
            starts == run_starts(all, base as nat, budget as nat, i as nat),
            i == 0 ==> starts.len() == 0 && start == 0,
            i > 0 ==> starts.len() > 0 && starts.last() == start && start < i,
            runs@.len() + (if i > 0 {
                1int
            } else {
                0
            }) == starts.len(),
            forall|k: int|
                #![trigger runs@[k]]
                0 <= k < runs@.len() ==> runs@[k].from == starts[k] && runs@[k].to == starts[k + 1],
            size == base + cost(all, start as int, i as int),
        decreases paths.len() - i,
    {
        proof {
            assert(all[i as int] == paths@[i as int]@);
            assert(cost(all, start as int, i + 1) == cost(all, start as int, i as int)
                + paths@[i as int]@.len() + 1);
            lemma_cost_grows(all, start as int, i as int + 1, paths@.len() as int);
            lemma_cost_grows(all, 0, start as int, paths@.len() as int);
            lemma_cost_grows(all, i as int, i as int + 1, paths@.len() as int);
            lemma_cost_grows(all, 0, i as int, paths@.len() as int);
            assert(cost(all, i as int, i + 1) == paths@[i as int]@.len() + 1) by {
                reveal_with_fuel(cost, 2);
            }
        }
        let each: usize = paths[i].len() + 1;
        let ghost before = starts;
        proof {
            starts = run_starts(all, base as nat, budget as nat, (i + 1) as nat);
        }
        if i > start && size + each > budget {
            runs.push(Run { from: start, to: i });
            start = i;
            size = base;
            proof {
                assert(starts == before.push(i as int));
                assert forall|k: int|
                    #![trigger runs@[k]]
                    0 <= k < runs@.len() implies runs@[k].from == starts[k] && runs@[k].to
                    == starts[k + 1] by {}
            }
        }
        size = size + each;
        i = i + 1;
    }
    if start < paths.len() {
        runs.push(Run { from: start, to: paths.len() });
    }
    runs
}

// The commands.

/// The commands that one run per result takes: the template with the name
/// filled in.
pub open spec fn single(template: Seq<Seq<char>>, path: Seq<u8>) -> Seq<Seq<u8>> {
    Seq::new(template.len(), |i: int| filled(encode_utf8(template[i]), path))
}

/// The fixed arguments of a command that carries many results: all but the
/// trailing `{}`, where the names go.
pub open spec fn fixed(template: Seq<Seq<char>>) -> Seq<Seq<u8>> {
    Seq::new((template.len() - 1) as nat, |i: int| encode_utf8(template[i]))
}

/// The command that carries the results of one run.
pub open spec fn carrying(template: Seq<Seq<char>>, paths: Seq<Seq<u8>>, run: Run) -> Seq<
    Seq<u8>,
> {
    fixed(template) + paths.subrange(run.from as int, run.to as int)
}

/// `out` are the commands that carry the results.
pub open spec fn commanded(
    template: Seq<Seq<char>>,
    batch: bool,
    all: Seq<Seq<u8>>,
    out: Seq<Vec<Vec<u8>>>,
) -> bool {
    if batch {
        let head = fixed(template);
        let base = cost(head, 0, head.len() as int);
        exists|runs: Seq<Run>| #[trigger]
            cuts(runs, run_starts(all, base, BATCH_BYTES as nat, all.len()), all.len() as int)
                && out.len() == runs.len() && forall|i: int|
                0 <= i < out.len() ==> views((#[trigger] out[i])@) == carrying(
                    template,
                    all,
                    runs[i],
                )
    } else {
        out.len() == all.len() && forall|i: int|
            0 <= i < out.len() ==> views((#[trigger] out[i])@) == single(template, all[i])
    }
}

impl Exec {
    /// There is a command to run. Where the names replace all of it, the first
    /// name of each run is the command.
    pub open spec fn runnable(&self) -> bool {
        self.template@.len() > 0
    }

    /// The fixed arguments and all names together can be counted.
    pub open spec fn countable(&self, paths: Seq<Seq<u8>>) -> bool {
        let head = fixed(texts(self.template@));
        cost(head, 0, head.len() as int) + cost(paths, 0, paths.len() as int) <= usize::MAX
    }

    fn fill(&self, path: &[u8]) -> (argv: Vec<Vec<u8>>)
        ensures
            views(argv@) == single(texts(self.template@), path@),
    {
        let ghost t = texts(self.template@);
        let mut argv: Vec<Vec<u8>> = Vec::new();
        let mut i: usize = 0;
        assert(views(argv@) =~= single(t, path@).take(0));
        while i < self.template.len()
            invariant
                i <= self.template@.len(),
                t == texts(self.template@),
                views(argv@) == single(t, path@).take(i as int),
            decreases self.template@.len() - i,
        {
            let ghost before = views(argv@);
            let arg = substitute(self.template[i].as_str().as_bytes(), path);
            argv.push(arg);
            proof {
                assert(t[i as int] == self.template@[i as int]@);
                assert(views(argv@) =~= before.push(arg@));
                assert(single(t, path@).take(i + 1) =~= single(t, path@).take(i as int).push(arg@));
            }
            i = i + 1;
        }
        assert(single(t, path@).take(i as int) =~= single(t, path@));
        argv
    }

    fn head(&self) -> (argv: Vec<Vec<u8>>)
        requires
            self.template@.len() > 0,
        ensures
            views(argv@) == fixed(texts(self.template@)),
    {
        let ghost t = texts(self.template@);
        let mut argv: Vec<Vec<u8>> = Vec::new();
        let mut i: usize = 0;
        assert(views(argv@) =~= fixed(t).take(0));
        while i < self.template.len() - 1
            invariant
                i <= self.template@.len() - 1,
                t == texts(self.template@),
                views(argv@) == fixed(t).take(i as int),
            decreases self.template@.len() - i,
        {
            let ghost before = views(argv@);
            let arg = copy(self.template[i].as_str().as_bytes());
            argv.push(arg);
            proof {
                assert(t[i as int] == self.template@[i as int]@);
                assert(views(argv@) =~= before.push(arg@));
                assert(fixed(t).take(i + 1) =~= fixed(t).take(i as int).push(arg@));
            }
            i = i + 1;
        }
        assert(fixed(t).take(i as int) =~= fixed(t));
        argv
    }

    /// The commands to run over the results, in order, each a program and its
    /// arguments. No results, no commands.
    pub fn commands(&self, paths: &[Vec<u8>]) -> (out: Vec<Vec<Vec<u8>>>)
        requires
            self.runnable(),
            self.batch ==> self.countable(views(paths@)),
        ensures
            commanded(texts(self.template@), self.batch, views(paths@), out@),
    {
        let ghost t = texts(self.template@);
        let ghost all = views(paths@);
        let mut out: Vec<Vec<Vec<u8>>> = Vec::new();
        if !self.batch {
            let mut i: usize = 0;
            while i < paths.len()
                invariant
                    i <= paths.len(),
                    out@.len() == i,
                    t == texts(self.template@),
                    all == views(paths@),
                    forall|k: int|
                        0 <= k < out@.len() ==> views((#[trigger] out@[k])@) == single(t, all[k]),
                decreases paths.len() - i,
            {
                assert(all[i as int] == paths@[i as int]@);
                out.push(self.fill(paths[i].as_slice()));
                i = i + 1;
            }
            return out;
        }
        let head = self.head();
        let ghost fix = views(head@);
        let mut base: usize = 0;
        let mut h: usize = 0;
        while h < head.len()
            invariant
                h <= head@.len(),
                fix == views(head@),
                base == cost(fix, 0, h as int),
                cost(fix, 0, head@.len() as int) <= usize::MAX,
            decreases head@.len() - h,
        {
            proof {
                assert(fix[h as int] == head@[h as int]@);
                lemma_cost_grows(fix, 0, h as int + 1, head@.len() as int);
            }
            base = base + (head[h].len() + 1);
            h = h + 1;
        }
        let runs = batches(paths, base, BATCH_BYTES);
        proof {
            lemma_runs(all, base as nat, BATCH_BYTES as nat, runs@);
        }
        let mut i: usize = 0;
        while i < runs.len()
            invariant
                i <= runs@.len(),
                out@.len() == i,
                t == texts(self.template@),
                self.template@.len() > 0,
                all == views(paths@),
                forall|k: int|
                    #![trigger runs@[k]]
                    0 <= k < runs@.len() ==> runs@[k].from < runs@[k].to <= all.len(),
                forall|k: int|
                    0 <= k < out@.len() ==> views((#[trigger] out@[k])@) == carrying(
                        t,
                        all,
                        runs@[k],
                    ),
            decreases runs@.len() - i,
        {
            let run = runs[i];
            let mut argv = self.head();
            let mut j: usize = run.from;
            let ghost fix = views(argv@);
            assert(fix + all.subrange(run.from as int, run.from as int) =~= fix);
            while j < run.to
                invariant
                    run.from <= j <= run.to <= paths@.len(),
                    all == views(paths@),
                    views(argv@) == fix + all.subrange(run.from as int, j as int),
                decreases run.to - j,
            {
                let ghost before = views(argv@);
                let name = copy(paths[j].as_slice());
                argv.push(name);
                proof {
                    assert(views(argv@) =~= before.push(name@));
                    assert(all.subrange(run.from as int, j + 1) =~= all.subrange(
                        run.from as int,
                        j as int,
                    ).push(all[j as int]));
                }
                j = j + 1;
            }
            out.push(argv);
            i = i + 1;
        }
        out
    }
}

/// The status of a program that ran commands: 0 where all of them went well.
pub open spec fn run_status(done: Seq<bool>) -> int {
    if forall|i: int| 0 <= i < done.len() ==> done[i] {
        0
    } else {
        1
    }
}

/// The status of all runs together, each of which was started whatever became
/// of those before it: 0 when every one succeeded, 1 otherwise.
pub fn exit_status(done: &[bool]) -> (s: i32)
    ensures
        s == run_status(done@),
{
    let mut i: usize = 0;
    while i < done.len()
        invariant
            i <= done@.len(),
            forall|k: int| 0 <= k < i ==> done@[k],
        decreases done@.len() - i,
    {
        if !done[i] {
            assert(!done@[i as int]);
            return 1;
        }
        i = i + 1;
    }
    0
}

// What the runs promise.

proof fn lemma_starts(paths: Seq<Seq<u8>>, base: nat, budget: nat, k: nat)
    ensures
        ({
            let s = run_starts(paths, base, budget, k);
            &&& k == 0 <==> s.len() == 0
            &&& k > 0 ==> s[0] == 0 && s.last() < k
            &&& forall|i: int|
                #![trigger s[i]]
                0 <= i < s.len() ==> 0 <= s[i] < (if i + 1 < s.len() {
                    s[i + 1]
                } else {
                    k as int
                })
            &&& forall|i: int|
                #![trigger s[i]]
                0 <= i < s.len() ==> {
                    let to = if i + 1 < s.len() {
                        s[i + 1]
                    } else {
                        k as int
                    };
                    to == s[i] + 1 || base + cost(paths, s[i], to) <= budget
                }
        }),
    decreases k,
{
    if k > 0 {
        lemma_starts(paths, base, budget, (k - 1) as nat);
        let before = run_starts(paths, base, budget, (k - 1) as nat);
        let s = run_starts(paths, base, budget, k);
        assert forall|i: int|
            #![trigger s[i]]
            0 <= i < s.len() implies 0 <= s[i] < (if i + 1 < s.len() {
            s[i + 1]
        } else {
            k as int
        }) && ({
            let to = if i + 1 < s.len() {
                s[i + 1]
            } else {
                k as int
            };
            to == s[i] + 1 || base + cost(paths, s[i], to) <= budget
        }) by {
            if i < before.len() {
                assert(s[i] == before[i]);
            }
        }
    }
}

proof fn lemma_runs(paths: Seq<Seq<u8>>, base: nat, budget: nat, runs: Seq<Run>)
    requires
        cuts(runs, run_starts(paths, base, budget, paths.len()), paths.len() as int),
    ensures
        forall|i: int|
            #![trigger runs[i]]
            0 <= i < runs.len() ==> runs[i].from < runs[i].to <= paths.len(),
{
    lemma_starts(paths, base, budget, paths.len());
    let s = run_starts(paths, base, budget, paths.len());
    assert forall|i: int|
        #![trigger runs[i]]
        0 <= i < runs.len() implies runs[i].from < runs[i].to <= paths.len() by {
        assert(s[i] >= 0);
        if i + 1 < s.len() {
            assert(s[i + 1] >= 0);
            lemma_start_below(s, i + 1, paths.len() as int);
        }
    }
}

proof fn lemma_start_below(s: Seq<int>, i: int, n: int)
    requires
        0 <= i < s.len(),
        forall|i: int|
            #![trigger s[i]]
            0 <= i < s.len() ==> 0 <= s[i] < (if i + 1 < s.len() {
                s[i + 1]
            } else {
                n
            }),
    ensures
        s[i] < n,
    decreases s.len() - i,
{
    if i + 1 < s.len() {
        lemma_start_below(s, i + 1, n);
    }
}

/// The runs carry every result exactly once, in order: the first starts at the
/// first result, each starts where the one before it ends, and the last ends
/// with the last result. None is empty.
pub proof fn runs_carry_everything(
    paths: Seq<Seq<u8>>,
    base: nat,
    budget: nat,
    runs: Seq<Run>,
    i: int,
)
    requires
        cuts(runs, run_starts(paths, base, budget, paths.len()), paths.len() as int),
        0 <= i < runs.len(),
    ensures
        runs[0].from == 0,
        runs.last().to == paths.len(),
        runs[i].from < runs[i].to,
        i + 1 < runs.len() ==> runs[i + 1].from == runs[i].to,
{
    lemma_starts(paths, base, budget, paths.len());
    lemma_runs(paths, base, budget, runs);
    assert(runs[0].from == 0);
    assert(runs[runs.len() - 1].to == paths.len());
    if i + 1 < runs.len() {
        assert(runs[i + 1].from == runs[i].to);
    }
}

/// The results that the first `k` runs carry, one run after the other.
pub open spec fn carried(paths: Seq<Seq<u8>>, runs: Seq<Run>, k: nat) -> Seq<Seq<u8>>
    decreases k,
{
    if k == 0 {
        seq![]
    } else {
        let last = runs[k - 1];
        carried(paths, runs, (k - 1) as nat) + paths.subrange(last.from as int, last.to as int)
    }
}

/// The names that the runs carry, put together, are the results.
pub proof fn runs_carry_the_results(
    paths: Seq<Seq<u8>>,
    base: nat,
    budget: nat,
    runs: Seq<Run>,
)
    requires
        cuts(runs, run_starts(paths, base, budget, paths.len()), paths.len() as int),
    ensures
        carried(paths, runs, runs.len()) == paths,
{
    results_need_runs(paths, base, budget, runs);
    if runs.len() == 0 {
        assert(paths =~= Seq::<Seq<u8>>::empty());
    } else {
        lemma_carried(paths, base, budget, runs, runs.len());
        runs_carry_everything(paths, base, budget, runs, 0);
        assert(paths.take(paths.len() as int) =~= paths);
    }
}

proof fn lemma_carried(paths: Seq<Seq<u8>>, base: nat, budget: nat, runs: Seq<Run>, k: nat)
    requires
        cuts(runs, run_starts(paths, base, budget, paths.len()), paths.len() as int),
        0 < k <= runs.len(),
    ensures
        carried(paths, runs, k) == paths.take(runs[k - 1].to as int),
    decreases k,
{
    lemma_runs(paths, base, budget, runs);
    let last = runs[k - 1];
    assert(last.from < last.to <= paths.len());
    if k == 1 {
        runs_carry_everything(paths, base, budget, runs, 0);
        assert(carried(paths, runs, 0) == Seq::<Seq<u8>>::empty());
        assert(carried(paths, runs, k) =~= paths.take(last.to as int));
    } else {
        lemma_carried(paths, base, budget, runs, (k - 1) as nat);
        runs_carry_everything(paths, base, budget, runs, k - 2);
        assert(carried(paths, runs, k) =~= paths.take(last.to as int));
    }
}

/// Every command holds at least the program to start, whatever clause it comes
/// from.
pub proof fn commands_name_a_program(
    e: Exec,
    paths: Seq<Seq<u8>>,
    base: nat,
    budget: nat,
    runs: Seq<Run>,
    i: int,
)
    requires
        e.runnable(),
        cuts(runs, run_starts(paths, base, budget, paths.len()), paths.len() as int),
    ensures
        0 <= i < runs.len() ==> carrying(texts(e.template@), paths, runs[i]).len() > 0,
        0 <= i < paths.len() ==> single(texts(e.template@), paths[i]).len() > 0,
{
    lemma_runs(paths, base, budget, runs);
}

/// There is a run exactly when there is a result.
pub proof fn results_need_runs(paths: Seq<Seq<u8>>, base: nat, budget: nat, runs: Seq<Run>)
    requires
        cuts(runs, run_starts(paths, base, budget, paths.len()), paths.len() as int),
    ensures
        runs.len() == 0 <==> paths.len() == 0,
{
    lemma_starts(paths, base, budget, paths.len());
}

/// A run stays within the budget, unless it carries a single name.
pub proof fn runs_fit_the_budget(
    paths: Seq<Seq<u8>>,
    base: nat,
    budget: nat,
    runs: Seq<Run>,
    i: int,
)
    requires
        cuts(runs, run_starts(paths, base, budget, paths.len()), paths.len() as int),
        0 <= i < runs.len(),
    ensures
        runs[i].to == runs[i].from + 1 || base + cost(
            paths,
            runs[i].from as int,
            runs[i].to as int,
        ) <= budget,
{
    lemma_starts(paths, base, budget, paths.len());
    let s = run_starts(paths, base, budget, paths.len());
    assert(s[i] == runs[i].from);
}

/// An argument without `{}` is left alone.
pub proof fn plain_arguments_stay(arg: Seq<u8>, path: Seq<u8>)
    requires
        !crate::bytes::occurs(arg, braces()),
    ensures
        filled(arg, path) == arg,
    decreases arg.len(),
{
    if arg.len() > 0 {
        if arg.len() >= 2 {
            assert(arg.subrange(0, 2) =~= arg.take(2));
            assert(!crate::bytes::occurs_at(arg, braces(), 0));
        }
        let rest = arg.skip(1);
        assert forall|i: int| !crate::bytes::occurs_at(rest, braces(), i) by {
            if crate::bytes::occurs_at(rest, braces(), i) {
                assert(arg.subrange(i + 1, i + 3) =~= rest.subrange(i, i + 2));
                assert(crate::bytes::occurs_at(arg, braces(), i + 1));
            }
        }
        plain_arguments_stay(rest, path);
        assert(seq![arg[0]] + rest =~= arg);
    }
}

// What a clause says.

proof fn lemma_clause_end(args: Seq<Seq<char>>, from: nat, end: nat)
    requires
        from <= end <= args.len(),
        forall|i: int| from <= i < end ==> !ends_clause(#[trigger] args[i]),
        end < args.len() ==> ends_clause(args[end as int]),
    ensures
        clause_end(args, from) == end,
    decreases end - from,
{
    if from < end {
        assert(!ends_clause(args[from as int]));
        lemma_clause_end(args, from + 1, end);
    }
}

proof fn lemma_clause_start(before: Seq<Seq<char>>, rest: Seq<Seq<char>>)
    requires
        !before.contains("-exec"@),
    ensures
        clause_start(before + seq!["-exec"@] + rest) == before.len(),
{
    let args = before + seq!["-exec"@] + rest;
    assert forall|i: int| 0 <= i < before.len() implies #[trigger] args[i] != "-exec"@ by {
        assert(before.contains(before[i]));
    }
    crate::split::lemma_first_of_is(args, "-exec"@, before.len() as int);
}

/// Without `-exec` nothing is run, and all arguments stay.
pub proof fn arguments_without_a_clause_stay(args: Seq<Seq<char>>)
    requires
        !args.contains("-exec"@),
    ensures
        clause_of(args) == Ok::<_, Seq<char>>((args, None::<(Seq<Seq<char>>, bool)>)),
{
    assert forall|i: int| 0 <= i < args.len() implies #[trigger] args[i] != "-exec"@ by {
        assert(args.contains(args[i]));
    }
    crate::split::lemma_first_of_is(args, "-exec"@, args.len() as int);
}

/// What stands between `-exec` and the next `;` is the command, run for each
/// result; what stands before the one and behind the other stays, in order.
pub proof fn semicolons_end_commands(
    before: Seq<Seq<char>>,
    command: Seq<Seq<char>>,
    after: Seq<Seq<char>>,
)
    requires
        !before.contains("-exec"@),
        !command.contains(";"@),
        !command.contains("+"@),
    ensures
        clause_of(before + seq!["-exec"@] + (command + seq![";"@] + after)) == (if command.len()
            == 0 {
            Err("-exec needs a command"@)
        } else {
            Ok((before + after, Some((command, false))))
        }),
{
    reveal_strlit(";");
    reveal_strlit("+");
    assert(";"@[0] != "+"@[0]);
    lemma_clause(before, command, ";"@, after);
}

/// The same of `+`: one run for all results, whose names go where the `{}` at
/// the end of the command stands.
pub proof fn pluses_end_commands(
    before: Seq<Seq<char>>,
    command: Seq<Seq<char>>,
    after: Seq<Seq<char>>,
)
    requires
        !before.contains("-exec"@),
        !command.contains(";"@),
        !command.contains("+"@),
    ensures
        clause_of(before + seq!["-exec"@] + (command + seq!["+"@] + after)) == (if command.len()
            == 0 {
            Err("-exec needs a command"@)
        } else if command.last() != "{}"@ {
            Err("-exec ... + needs {} as the last argument, so the names can be added there"@)
        } else {
            Ok((before + after, Some((command, true))))
        }),
{
    lemma_clause(before, command, "+"@, after);
}

proof fn lemma_clause(
    before: Seq<Seq<char>>,
    command: Seq<Seq<char>>,
    end: Seq<char>,
    after: Seq<Seq<char>>,
)
    requires
        !before.contains("-exec"@),
        !command.contains(";"@),
        !command.contains("+"@),
        end == ";"@ || end == "+"@,
    ensures
        ({
            let args = before + seq!["-exec"@] + (command + seq![end] + after);
            let at: int = before.len() as int;
            let to: int = at + 1 + command.len();
            &&& clause_start(args) == at
            &&& clause_end(args, (at + 1) as nat) == to
            &&& args[to] == end
            &&& args.subrange(at + 1, to) == command
            &&& args.take(at) + args.skip(to + 1) == before + after
        }),
{
    let rest = command + seq![end] + after;
    let args = before + seq!["-exec"@] + rest;
    let to: int = before.len() as int + 1 + command.len();
    lemma_clause_start(before, rest);
    assert forall|i: int| before.len() + 1 <= i < to implies !ends_clause(#[trigger] args[i]) by {
        assert(command[i - before.len() - 1] == args[i]);
        assert(command.contains(args[i]));
    }
    assert(args[to] == end);
    lemma_clause_end(args, (before.len() + 1) as nat, to as nat);
    assert(args.subrange(before.len() as int + 1, to) =~= command);
    assert(args.take(before.len() as int) =~= before);
    assert(args.skip(to + 1) =~= after);
}

/// A command that is never ended is refused.
pub proof fn unfinished_commands_are_refused(before: Seq<Seq<char>>, command: Seq<Seq<char>>)
    requires
        !before.contains("-exec"@),
        !command.contains(";"@),
        !command.contains("+"@),
    ensures
        clause_of(before + seq!["-exec"@] + command) is Err,
{
    let args = before + seq!["-exec"@] + command;
    lemma_clause_start(before, command);
    assert forall|i: int| before.len() + 1 <= i < args.len() implies !ends_clause(
        #[trigger] args[i],
    ) by {
        assert(command[i - before.len() - 1] == args[i]);
        assert(command.contains(args[i]));
    }
    lemma_clause_end(args, before.len() + 1, args.len());
}

/// The name is put wherever an argument says `{}`.
pub proof fn braces_are_filled(a: Seq<u8>, b: Seq<u8>, path: Seq<u8>)
    ensures
        filled(a + seq![0x7bu8, 0x7d] + b, path) == filled(a, path) + path + filled(b, path),
    decreases a.len(),
{
    let two = seq![0x7bu8, 0x7d];
    let s = a + two + b;
    if a.len() == 0 {
        assert(s.take(2) =~= two);
        assert(s.skip(2) =~= b);
        assert(filled(a, path) + path + filled(b, path) =~= path + filled(b, path));
    } else if a.len() >= 2 && a.take(2) == two {
        braces_are_filled(a.skip(2), b, path);
        assert(s.take(2) =~= a.take(2));
        assert(s.skip(2) =~= a.skip(2) + two + b);
        assert(filled(s, path) =~= filled(a, path) + path + filled(b, path));
    } else {
        braces_are_filled(a.skip(1), b, path);
        assert(s[0] == a[0]);
        assert(s.take(2) != two) by {
            if s.take(2) == two {
                assert(s.take(2)[0] == 0x7b && s.take(2)[1] == 0x7d);
                assert(a.len() >= 2);
                assert(a.take(2) =~= two);
            }
        }
        assert(s.skip(1) =~= a.skip(1) + two + b);
        assert(filled(s, path) =~= filled(a, path) + path + filled(b, path));
    }
}

/// A run for one result takes every argument of the command, with the name
/// filled in.
pub proof fn single_runs_name_the_result(template: Seq<Seq<char>>, path: Seq<u8>, i: int)
    requires
        0 <= i < template.len(),
    ensures
        single(template, path).len() == template.len(),
        single(template, path)[i] == filled(encode_utf8(template[i]), path),
        template[i] == "{}"@ ==> single(template, path)[i] == path,
{
    if template[i] == "{}"@ {
        reveal_strlit("{}");
        let none = Seq::<u8>::empty();
        let two = seq![0x7bu8, 0x7d];
        is_ascii_chars_encode_utf8("{}"@);
        let e = encode_utf8("{}"@);
        assert("{}"@[0] as u8 == e[0] && "{}"@[1] as u8 == e[1]);
        assert(e =~= two);
        braces_are_filled(none, none, path);
        assert(none + two + none =~= two);
        assert(filled(none, path) + path + filled(none, path) =~= path);
    }
}

/// A run for many results takes the arguments of the command before the last,
/// as they are, and then the names.
pub proof fn common_runs_name_the_results(
    before: Seq<Seq<char>>,
    last: Seq<char>,
    paths: Seq<Seq<u8>>,
    run: Run,
    i: int,
)
    requires
        run.from <= run.to <= paths.len(),
    ensures
        ({
            let argv = carrying(before.push(last), paths, run);
            &&& argv.len() == before.len() + (run.to - run.from)
            &&& 0 <= i < before.len() ==> argv[i] == encode_utf8(before[i])
            &&& before.len() <= i < argv.len() ==> argv[i] == paths[run.from + i - before.len()]
        }),
{
}

/// Names cost their bytes and one more, and runs what their names cost.
pub proof fn costs_add_up(paths: Seq<Seq<u8>>, from: int, mid: int, to: int)
    requires
        from <= mid <= to,
    ensures
        cost(paths, from, to) == cost(paths, from, mid) + cost(paths, mid, to),
        cost(paths, mid, mid) == 0,
        cost(paths, mid, mid + 1) == paths[mid].len() + 1,
    decreases to - mid,
{
    reveal_with_fuel(cost, 2);
    if mid < to {
        costs_add_up(paths, from, mid, to - 1);
    }
}

proof fn lemma_starts_late(paths: Seq<Seq<u8>>, base: nat, budget: nat, k: nat)
    ensures
        ({
            let s = run_starts(paths, base, budget, k);
            forall|i: int|
                #![trigger s[i]]
                0 < i < s.len() ==> base + cost(paths, s[i - 1], s[i] + 1) > budget
        }),
    decreases k,
{
    if k > 0 {
        lemma_starts_late(paths, base, budget, (k - 1) as nat);
        let t = run_starts(paths, base, budget, (k - 1) as nat);
        let s = run_starts(paths, base, budget, k);
        assert forall|i: int|
            #![trigger s[i]]
            0 < i < s.len() implies base + cost(paths, s[i - 1], s[i] + 1) > budget by {
            if i < t.len() {
                assert(s[i] == t[i] && s[i - 1] == t[i - 1]);
            } else {
                assert(s[i - 1] == t.last());
            }
        }
    }
}

/// Command lines stay within 128 KiB, and no shorter than they must: a run takes
/// in the next name unless that would exceed the bound.
pub proof fn runs_are_filled_up(paths: Seq<Seq<u8>>, base: nat, runs: Seq<Run>, i: int)
    requires
        cuts(runs, run_starts(paths, base, BATCH_BYTES as nat, paths.len()), paths.len() as int),
        0 <= i < runs.len(),
    ensures
        runs[i].to == runs[i].from + 1 || base + cost(
            paths,
            runs[i].from as int,
            runs[i].to as int,
        ) <= 131072,
        i + 1 < runs.len() ==> base + cost(paths, runs[i].from as int, runs[i].to + 1) > 131072,
{
    runs_fit_the_budget(paths, base, BATCH_BYTES as nat, runs, i);
    lemma_starts_late(paths, base, BATCH_BYTES as nat, paths.len());
    let s = run_starts(paths, base, BATCH_BYTES as nat, paths.len());
    if i + 1 < runs.len() {
        assert(s[i + 1] == runs[i].to);
    }
}

/// The status is 0 when no command failed, and 1 when one did, whichever.
pub proof fn failures_show_in_the_status(done: Seq<bool>)
    ensures
        run_status(done) == 0 <==> !done.contains(false),
        run_status(done) == 1 <==> done.contains(false),
{
    if done.contains(false) {
        let i = choose|i: int| 0 <= i < done.len() && done[i] == false;
        assert(!done[i]);
    }
    if run_status(done) == 1 {
        let i = choose|i: int| 0 <= i < done.len() && !done[i];
        assert(done[i] == false);
    }
}

/// Ended by `;`, the command is run once for each result, in order; ended by `+`,
/// in as few runs as carry all results, each of them with the same arguments before
/// the names.
pub proof fn commands_carry_the_results(
    template: Seq<Seq<char>>,
    all: Seq<Seq<u8>>,
    out: Seq<Vec<Vec<u8>>>,
    i: int,
)
    requires
        template.len() > 0,
        0 <= i < out.len(),
    ensures
        commanded(template, false, all, out) ==> out.len() == all.len() && views(out[i]@) == single(
            template,
            all[i],
        ),
        commanded(template, true, all, out) ==> {
            let argv = views(out[i]@);
            &&& all.len() > 0
            &&& argv.len() > template.len() - 1
            &&& forall|k: int|
                0 <= k < template.len() - 1 ==> #[trigger] argv[k] == encode_utf8(template[k])
            &&& forall|k: int|
                template.len() - 1 <= k < argv.len() ==> all.contains(#[trigger] argv[k])
        },
{
    if commanded(template, true, all, out) {
        let head = fixed(template);
        let base = cost(head, 0, head.len() as int);
        let runs = choose|runs: Seq<Run>| #[trigger]
            cuts(runs, run_starts(all, base, BATCH_BYTES as nat, all.len()), all.len() as int)
                && out.len() == runs.len() && forall|i: int|
                0 <= i < out.len() ==> views((#[trigger] out[i])@) == carrying(
                    template,
                    all,
                    runs[i],
                );
        lemma_runs(all, base, BATCH_BYTES as nat, runs);
        assert(runs[i].from < runs[i].to <= all.len());
        let argv = views(out[i]@);
        assert(argv == carrying(template, all, runs[i]));
        assert forall|k: int| template.len() - 1 <= k < argv.len() implies all.contains(
            #[trigger] argv[k],
        ) by {
            assert(argv[k] == all[runs[i].from + k - (template.len() - 1)]);
        }
    }
}

} // verus!
