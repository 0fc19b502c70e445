//! Regular-expression search, on the `regex` crate.
//!
//! That crate guarantees linear-time matching and caps the compiled size, so
//! that no pattern sent to the daemon can pin it.

use vstd::prelude::*;
use std::collections::HashMap;
use crate::bytes::{append, copy, views, SLASH};
use crate::ids::ids_where;
use crate::index::{Index, IndexView};
use crate::options::SearchOpts;
use crate::search::{answers, lemma_cut, lemma_push_answer, paths_of};
use crate::text::{chars_of, decimal, push_text, text_of, trim_bounds, trimmed};
use crate::tree::{lemma_path_nonempty, path, separator};

verus! {

/// The cap on the size of a compiled regular expression.
pub const SIZE_LIMIT: usize = 4194304;

/// A compiled regular expression over bytes.
#[verifier::external_type_specification]
#[verifier::external_body]
pub struct ExRegex(regex::bytes::Regex);

/// The pattern that a compiled expression was made from, and whether it
/// ignores case.
pub uninterp spec fn regex_source(re: regex::bytes::Regex) -> (Seq<char>, bool);

/// Whether the pattern matches somewhere in the bytes.
pub uninterp spec fn regex_found(pattern: Seq<char>, ignore_case: bool, hay: Seq<u8>) -> bool;

/// What is wrong with a pattern, if it is not a valid regular expression.
pub uninterp spec fn regex_fault(pattern: Seq<char>, ignore_case: bool) -> Option<Seq<char>>;

/// Why a pattern was not compiled.
pub enum RegexRefusal {
    /// It is not a valid regular expression.
    Syntax(String),
    /// It compiles to more than the cap.
    TooBig(String),
}

/// What is said of an expression that compiles to more than `limit` bytes.
pub open spec fn too_big_text(limit: nat) -> Seq<char> {
    "Compiled regex exceeds size limit of "@ + decimal(limit) + " bytes."@
}

/// `regex::bytes::RegexBuilder`: `new`, `case_insensitive`, `size_limit` and
/// `build`. A pattern is refused with a message that depends on it and on the
/// case flag alone, or because its compiled form exceeds the cap, which the
/// message names. Which valid patterns exceed the cap depends on the machine's
/// word size and is left unsaid.
#[verifier::external_body]
fn compile(pattern: &str, ignore_case: bool, size_limit: usize) -> (r: Result<
    regex::bytes::Regex,
    RegexRefusal,
>)
    ensures
        match r {
            Ok(re) => regex_source(re) == (pattern@, ignore_case) && regex_fault(
                pattern@,
                ignore_case,
            ) is None,
            Err(RegexRefusal::Syntax(m)) => regex_fault(pattern@, ignore_case) == Some(m@),
            Err(RegexRefusal::TooBig(m)) => regex_fault(pattern@, ignore_case) is None && m@
                == too_big_text(size_limit as nat),
        },
{
    let mut b = regex::bytes::RegexBuilder::new(pattern);
    match b.case_insensitive(ignore_case).size_limit(size_limit).build() {
        Ok(re) => Ok(re),
        Err(regex::Error::CompiledTooBig(n)) => {
            Err(RegexRefusal::TooBig(regex::Error::CompiledTooBig(n).to_string()))
        },
        Err(e) => Err(RegexRefusal::Syntax(e.to_string())),
    }
}

/// `regex::bytes::Regex::is_match`: whether the expression matches somewhere in
/// the bytes, which depends on what it was made from and on the bytes alone.
#[verifier::external_body]
fn is_match(re: &regex::bytes::Regex, hay: &[u8]) -> (r: bool)
    ensures
        r == regex_found(regex_source(*re).0, regex_source(*re).1, hay@),
{
    re.is_match(hay)
}

/// Where the line that ends at `end` begins.
pub open spec fn line_start(s: Seq<char>, end: int) -> int
    decreases end,
{
    if end <= 0 || s[end - 1] == '\n' {
        end
    } else {
        line_start(s, end - 1)
    }
}

/// The last line before `end` that is not blank, without the white space
/// around it, or nothing if all are blank.
pub open spec fn last_line(s: Seq<char>, end: int) -> Seq<char>
    decreases end,
{
    let a = line_start(s, end);
    let t = trimmed(s.subrange(a, end));
    if t.len() > 0 || a <= 0 || a > end {
        t
    } else {
        last_line(s, a - 1)
    }
}

/// `s` without any number of `head` in front.
pub open spec fn without_heads(s: Seq<char>, head: Seq<char>) -> Seq<char>
    decreases s.len(),
{
    if 0 < head.len() <= s.len() && s.take(head.len() as int) == head {
        without_heads(s.skip(head.len() as int), head)
    } else {
        s
    }
}

/// What is reported of a refused pattern: the last line of the message.
pub open spec fn regex_report(message: Seq<char>) -> Seq<char> {
    "invalid regex: "@ + without_heads(last_line(message, message.len() as int), "error: "@)
}

/// A message about a pattern spans several lines; the socket protocol is
/// line-based, so only the last one is kept.
pub fn regex_error(message: &str) -> (out: String)
    ensures
        out@ == regex_report(message@),
{
    let chars = chars_of(message);
    let mut end: usize = chars.len();
    let mut a: usize = 0;
    let mut b: usize = 0;
    let mut found = false;
    while !found
        invariant
            chars@ == message@,
            end <= chars.len(),
            a <= b <= chars.len(),
            !found ==> last_line(chars@, end as int) == last_line(chars@, chars@.len() as int),
            found ==> chars@.subrange(a as int, b as int) == last_line(
                chars@,
                chars@.len() as int,
            ),
        decreases (if found {
            0int
        } else {
            end + 1
        }),
    {
        let mut start: usize = end;
        while start > 0 && chars[start - 1] != '\n'
            invariant
                start <= end <= chars.len(),
                line_start(chars@, end as int) == line_start(chars@, start as int),
            decreases start,
        {
            start = start - 1;
        }
        let (x, y) = trim_bounds(&chars, start, end);
        proof {
            assert(line_start(chars@, end as int) == start);
            assert(chars@.subrange(x as int, y as int).len() == y - x);
        }
        if x < y || start == 0 {
            a = x;
            b = y;
            found = true;
        } else {
            end = start - 1;
        }
    }
    let head = chars_of("error: ");
    proof {
        reveal_strlit("error: ");
        assert(head@.len() == 7);
    }
    let ghost line = chars@.subrange(a as int, b as int);
    let mut more = true;
    while more
        invariant
            a <= b <= chars.len(),
            head@ == "error: "@,
            head@.len() == 7,
            without_heads(chars@.subrange(a as int, b as int), head@) == without_heads(
                line,
                head@,
            ),
            !more ==> without_heads(chars@.subrange(a as int, b as int), head@)
                == chars@.subrange(a as int, b as int),
        decreases b - a + (if more {
            1int
        } else {
            0int
        }),
    {
        let ghost cur = chars@.subrange(a as int, b as int);
        more = b - a >= head.len();
        let mut i: usize = 0;
        while more && i < head.len()
            invariant
                a <= b <= chars.len(),
                head@.len() == 7,
                cur == chars@.subrange(a as int, b as int),
                i <= head.len(),
                more ==> b - a >= head.len(),
                more ==> forall|k: int| 0 <= k < i ==> cur[k] == head@[k],
                !more ==> !(head@.len() <= cur.len() && cur.take(head@.len() as int) == head@),
            decreases head.len() - i + (if more {
                1int
            } else {
                0int
            }),
        {
            assert(cur[i as int] == chars@[a + i]);
            if chars[a + i] != head[i] {
                proof {
                    if cur.take(head@.len() as int) == head@ {
                        assert(cur.take(head@.len() as int)[i as int] == cur[i as int]);
                    }
                }
                more = false;
            } else {
                i = i + 1;
            }
        }
        if more {
            proof {
                assert(cur.take(head@.len() as int) =~= head@);
                assert(cur.skip(head@.len() as int) =~= chars@.subrange(
                    a + head@.len(),
                    b as int,
                ));
            }
            a = a + head.len();
        }
    }
    let mut out = String::new();
    push_text(&mut out, "invalid regex: ");
    let tail = text_of(&chars, a, b);
    push_text(&mut out, tail.as_str());
    assert(out@ =~= regex_report(message@));
    out
}

impl IndexView {
    /// What an expression is matched against: the name, or the full path.
    pub open spec fn regex_subject(self, i: int, in_path: bool) -> Seq<u8> {
        if in_path {
            path(self.nodes, i)
        } else {
            self.nodes[i].name
        }
    }

    /// Selects what a search for the expression finds.
    pub open spec fn regex_match(self, pattern: Seq<char>, o: SearchOpts, in_path: bool) -> spec_fn(
        int,
    ) -> bool {
        |i: int|
            regex_found(pattern, !o.match_case, self.regex_subject(i, in_path)) && self.accepts(
                i,
                o,
            )
    }
}

impl Index {
    /// Everything that the compiled expression matches, up to `limit`.
    pub fn search_compiled(
        &self,
        re: &regex::bytes::Regex,
        limit: usize,
        o: &SearchOpts,
        in_path: bool,
    ) -> (out: Vec<Vec<u8>>)
        requires
            self.wf(),
            limit > 0,
            regex_source(*re).1 == !o.match_case,
        ensures
            views(out@) == answers(
                self@.nodes,
                self@.selected(self@.regex_match(regex_source(*re).0, *o, in_path)),
                limit as int,
            ),
    {
        let ghost v = self@;
        let ghost nodes = v.nodes;
        let ghost n = nodes.len();
        let ghost keep = v.regex_match(regex_source(*re).0, *o, in_path);
        let mut out: Vec<Vec<u8>> = Vec::new();
        // Each folder's path is built once, in arena order, and extended per
        // entry.
        let mut dirs: HashMap<u32, Vec<u8>> = HashMap::new();
        let mut i: usize = 0;
        assert(views(out@) =~= paths_of(nodes, ids_where(keep, 0)));
        while i < self.entries.len()
            invariant
                self.wf(),
                v == self@,
                nodes == v.nodes,
                n == nodes.len(),
                limit > 0,
                regex_source(*re).1 == !o.match_case,
                keep == v.regex_match(regex_source(*re).0, *o, in_path),
                i <= n,
                forall|d: u32| #[trigger]
                    dirs@.contains_key(d) ==> d < i && dirs@[d]@ == path(nodes, d as int),
                views(out@) == paths_of(nodes, ids_where(keep, i as nat)),
                out@.len() < limit,
            decreases self.entries.len() - i,
        {
            let e = &self.entries[i];
            assert(nodes[i as int] == e@);
            let matched = if in_path {
                let full = match dirs.get(&e.parent) {
                    Some(above) => {
                        proof {
                            assert(dirs@.contains_key(e.parent));
                            lemma_path_nonempty(nodes, e.parent as int);
                        }
                        let mut full = copy(above.as_slice());
                        if full[full.len() - 1] != SLASH {
                            full.push(SLASH);
                        }
                        append(&mut full, e.name.as_slice());
                        proof {
                            let up = path(nodes, e.parent as int);
                            assert(full@ =~= up + separator(up) + e.name@);
                        }
                        full
                    },
                    None => self.path_bytes(i as u32),
                };
                assert(full@ == path(nodes, i as int));
                let m = is_match(re, full.as_slice());
                if e.is_dir {
                    dirs.insert(i as u32, full);
                }
                m
            } else {
                is_match(re, e.name.as_slice())
            };
            let ghost before = out@;
            if let Some(p) = self.accept_match(i as u32, matched, o) {
                out.push(p);
                proof {
                    assert(keep(i as int));
                    lemma_push_answer(nodes, before, p, ids_where(keep, i as nat), i as u32);
                }
            } else {
                assert(!keep(i as int));
            }
            if out.len() >= limit {
                proof {
                    assert(views(before).len() == before.len());
                    assert(views(out@).len() == out@.len());
                    lemma_cut(keep, (i + 1) as nat, n, limit as int);
                }
                return out;
            }
            i = i + 1;
        }
        proof {
            assert(views(out@).len() == out@.len());
        }
        out
    }

    /// What is made of the outcome of compiling: the answers of an expression,
    /// or the report on why there is none.
    pub fn answer_compiled(
        &self,
        compiled: Result<regex::bytes::Regex, RegexRefusal>,
        limit: usize,
        o: &SearchOpts,
        in_path: bool,
    ) -> (r: Result<Vec<Vec<u8>>, String>)
        requires
            self.wf(),
            limit > 0,
            compiled matches Ok(re) ==> regex_source(re).1 == !o.match_case,
        ensures
            compiled_outcome(self@, compiled, limit as int, *o, in_path, r),
    {
        match compiled {
            Ok(re) => Ok(self.search_compiled(&re, limit, o, in_path)),
            Err(RegexRefusal::Syntax(m)) => Err(regex_error(m.as_str())),
            Err(RegexRefusal::TooBig(m)) => Err(regex_error(m.as_str())),
        }
    }

    /// Regular-expression search over names, or over full paths in path mode.
    pub fn search_regex(&self, pattern: &str, limit: usize, o: &SearchOpts, in_path: bool) -> (r:
        Result<Vec<Vec<u8>>, String>)
        requires
            self.wf(),
            limit > 0,
        ensures
            regex_outcome(self@, pattern@, limit as int, *o, in_path, r),
    {
        self.answer_compiled(compile(pattern, !o.match_case, SIZE_LIMIT), limit, o, in_path)
    }
}

/// What is returned for each outcome of compiling: of an expression the entries
/// it matches, of a refusal the report on it.
pub open spec fn compiled_outcome(
    v: IndexView,
    compiled: Result<regex::bytes::Regex, RegexRefusal>,
    limit: int,
    o: SearchOpts,
    in_path: bool,
    r: Result<Vec<Vec<u8>>, String>,
) -> bool {
    match compiled {
        Ok(re) => r matches Ok(out) && views(out@) == answers(
            v.nodes,
            v.selected(v.regex_match(regex_source(re).0, o, in_path)),
            limit,
        ),
        Err(RegexRefusal::Syntax(m)) => r matches Err(e) && e@ == regex_report(m@),
        Err(RegexRefusal::TooBig(m)) => r matches Err(e) && e@ == regex_report(m@),
    }
}

/// What a regular-expression search returns: the report on a pattern that is
/// not valid; of a valid one the entries it matches, or the report that it is
/// too big.
pub open spec fn regex_outcome(
    v: IndexView,
    pattern: Seq<char>,
    limit: int,
    o: SearchOpts,
    in_path: bool,
    r: Result<Vec<Vec<u8>>, String>,
) -> bool {
    match regex_fault(pattern, !o.match_case) {
        Some(m) => r matches Err(e) && e@ == regex_report(m),
        None => match r {
            Ok(out) => views(out@) == answers(
                v.nodes,
                v.selected(v.regex_match(pattern, o, in_path)),
                limit,
            ),
            Err(e) => e@ == regex_report(too_big_text(SIZE_LIMIT as nat)),
        },
    }
}

// What is said of a refused pattern.

proof fn lemma_line_start(s: Seq<char>, end: int, a: int)
    requires
        0 <= a <= end <= s.len(),
        a == 0 || s[a - 1] == '\n',
        forall|k: int| a <= k < end ==> s[k] != '\n',
    ensures
        line_start(s, end) == a,
    decreases end - a,
{
    if a < end {
        lemma_line_start(s, end - 1, a);
    }
}

proof fn lemma_last_line_before(s: Seq<char>, more: Seq<char>, end: int)
    requires
        0 <= end <= s.len(),
    ensures
        last_line(s + more, end) == last_line(s, end),
    decreases end,
{
    let all = s + more;
    lemma_line_start_before(s, more, end);
    let a = line_start(s, end);
    assert(all.subrange(a, end) =~= s.subrange(a, end));
    if !(trimmed(s.subrange(a, end)).len() > 0 || a <= 0 || a > end) {
        lemma_last_line_before(s, more, a - 1);
    }
}

proof fn lemma_line_start_before(s: Seq<char>, more: Seq<char>, end: int)
    requires
        0 <= end <= s.len(),
    ensures
        line_start(s + more, end) == line_start(s, end),
        0 <= line_start(s, end) <= end,
    decreases end,
{
    if end > 0 && s[end - 1] != '\n' {
        lemma_line_start_before(s, more, end - 1);
    }
}

/// Of a message the last line that says something is reported, without the white
/// space around it.
pub proof fn the_last_line_is_reported(before: Seq<char>, line: Seq<char>)
    requires
        !line.contains('\n'),
    ensures
        last_line(line, line.len() as int) == trimmed(line),
        ({
            let s = before + seq!['\n'] + line;
            last_line(s, s.len() as int) == (if trimmed(line).len() > 0 {
                trimmed(line)
            } else {
                last_line(before, before.len() as int)
            })
        }),
{
    let s = before + seq!['\n'] + line;
    let a: int = before.len() as int + 1;
    assert forall|k: int| 0 <= k < line.len() implies line[k] != '\n' by {
        assert(line.contains(line[k]));
    }
    assert forall|k: int| a <= k < s.len() implies s[k] != '\n' by {
        assert(s[k] == line[k - a]);
    }
    lemma_line_start(line, line.len() as int, 0);
    assert(line.subrange(0, line.len() as int) =~= line);
    lemma_line_start(s, s.len() as int, a);
    assert(s.subrange(a, s.len() as int) =~= line);
    lemma_last_line_before(before, seq!['\n'] + line, before.len() as int);
    assert(before + (seq!['\n'] + line) =~= s);
}

/// The report names the fault once: what stands before it is taken off, as often
/// as it stands there.
pub proof fn reports_name_the_fault_once(s: Seq<char>, head: Seq<char>, line: Seq<char>)
    requires
        head.len() > 0,
        !line.contains('\n'),
        trimmed(line) == line,
        line.len() < 7 || line.take(7) != "error: "@,
    ensures
        without_heads(head + s, head) == without_heads(s, head),
        s.len() < head.len() || s.take(head.len() as int) != head ==> without_heads(s, head) == s,
        regex_report(line) == "invalid regex: "@ + line,
{
    assert((head + s).take(head.len() as int) =~= head);
    assert((head + s).skip(head.len() as int) =~= s);
    the_last_line_is_reported(seq![], line);
    reveal_strlit("error: ");
}

} // verus!
