//! The daemon's socket protocol.
//!
//! Deliberately trivial so any client can speak it; one request line per
//! connection:
//!   SEARCH0 <limit> <flags> <pattern>  -> each path as raw bytes ending in
//!                                         NUL; an empty record ends the reply
//!   SEARCH <limit> <flags> <pattern>   -> one path per line, blank line ends
//!   QUERY <limit> <pattern>            -> SEARCH with no flags
//!   STATS                              -> "entries <n> arena <n>", blank line
//!
//! Flags are those of the search options, "-" for none. Errors come back as a
//! record `ERR <message>`; paths always start with '/'. The line forms withhold
//! paths that contain a newline.

use vstd::prelude::*;
use vstd::utf8::encode_utf8;
use crate::bytes::{append, copy, copy_range, has_prefix, starts_with, views, SLASH};
use crate::catalog::{all_merged, living_in, merged_outcome, slots_in, Catalog, Part};
use crate::index::Index;
use crate::lookup::search_outcome;
use crate::maintain::{lossy, lossy_text};
use crate::options::{flags_of, no_opts, opts_of, SearchOpts};
use crate::split::{find_char, first_of, pieces, split_bytes};
use crate::text::{
    chars_of, decimal, is_white, number, parse_number, push_number, push_text, same_text, text_of,
    white,
};

verus! {

/// Upper bound on results per request, whatever the client asks for.
pub const MAX_LIMIT: usize = 100_000;

/// Any local user can connect, so bound what one can cost: at most this many
/// requests in flight (further connections are refused), and a request line of
/// at most `MAX_REQUEST` bytes.
pub const MAX_CLIENTS: usize = 32;

pub const MAX_REQUEST: u64 = 65536;

/// Ends a record of `SEARCH0`.
pub const NUL: u8 = 0;

/// Ends a record of the line forms.
pub const NEWLINE: u8 = 0x0a;

// Requests.

/// What a client asks for.
pub enum Request {
    /// Up to `limit` paths; `nul` if they are to come back as raw bytes.
    Search { limit: usize, opts: SearchOpts, pattern: String, nul: bool },
    Stats,
    Unknown,
}

/// The same over texts.
pub enum RequestView {
    Search { limit: nat, opts: SearchOpts, pattern: Seq<char>, nul: bool },
    Stats,
    Unknown,
}

impl View for Request {
    type V = RequestView;

    open spec fn view(&self) -> RequestView {
        match *self {
            Request::Search { limit, opts, pattern, nul } => RequestView::Search {
                limit: limit as nat,
                opts,
                pattern: pattern@,
                nul,
            },
            Request::Stats => RequestView::Stats,
            Request::Unknown => RequestView::Unknown,
        }
    }
}

/// What ends each record of the reply.
pub open spec fn separator_of(r: RequestView) -> u8 {
    match r {
        RequestView::Search { nul: true, .. } => NUL,
        _ => NEWLINE,
    }
}

impl Request {
    /// What ends each record of the reply.
    pub fn separator(&self) -> (sep: u8)
        ensures
            sep == separator_of(self@),
    {
        match self {
            Request::Search { nul, .. } => if *nul {
                NUL
            } else {
                NEWLINE
            },
            _ => NEWLINE,
        }
    }
}

/// Without white space at the end.
pub open spec fn end_trimmed(s: Seq<char>) -> Seq<char>
    decreases s.len(),
{
    if s.len() > 0 && white(s.last()) {
        end_trimmed(s.drop_last())
    } else {
        s
    }
}

/// `head` stands at the start of `s`.
pub open spec fn begins(s: Seq<char>, head: Seq<char>) -> bool {
    head.len() <= s.len() && s.take(head.len() as int) == head
}

/// What stands before the first space.
pub open spec fn word(s: Seq<char>) -> Seq<char> {
    s.take(first_of(s, ' ') as int)
}

/// What stands behind the first space; nothing if there is none.
pub open spec fn after_word(s: Seq<char>) -> Seq<char> {
    if first_of(s, ' ') < s.len() {
        s.skip(first_of(s, ' ') as int + 1)
    } else {
        seq![]
    }
}

/// How many results are wanted: 100 where that is not a number, and never more
/// than the bound.
pub open spec fn limit_of(s: Seq<char>) -> nat {
    let n = match number(s, usize::MAX as nat) {
        Some(n) => n,
        None => 100,
    };
    if n < MAX_LIMIT {
        n
    } else {
        MAX_LIMIT as nat
    }
}

/// `<limit> <flags> <pattern>`
pub open spec fn search_request(s: Seq<char>, nul: bool) -> RequestView {
    RequestView::Search {
        limit: limit_of(word(s)),
        opts: opts_of(word(after_word(s))),
        pattern: after_word(after_word(s)),
        nul,
    }
}

/// `<limit> <pattern>`
pub open spec fn query_request(s: Seq<char>) -> RequestView {
    RequestView::Search {
        limit: limit_of(word(s)),
        opts: no_opts(),
        pattern: after_word(s),
        nul: false,
    }
}

/// What a request line asks for.
pub open spec fn request_of(line: Seq<char>) -> RequestView {
    let t = end_trimmed(line);
    if begins(t, "SEARCH0 "@) {
        search_request(t.skip(8), true)
    } else if begins(t, "SEARCH "@) {
        search_request(t.skip(7), false)
    } else if begins(t, "QUERY "@) {
        query_request(t.skip(6))
    } else if t == "STATS"@ {
        RequestView::Stats
    } else {
        RequestView::Unknown
    }
}

/// `head` stands at the start of `s[..end]`.
fn begins_with(s: &Vec<char>, end: usize, head: &str) -> (r: bool)
    requires
        end <= s.len(),
    ensures
        r == begins(s@.take(end as int), head@),
{
    let h = chars_of(head);
    if h.len() > end {
        return false;
    }
    let ghost t = s@.take(end as int);
    let mut i: usize = 0;
    while i < h.len()
        invariant
            i <= h@.len() <= end <= s@.len(),
            h@ == head@,
            t == s@.take(end as int),
            forall|k: int| 0 <= k < i ==> t[k] == h@[k],
        decreases h@.len() - i,
    {
        if s[i] != h[i] {
            assert(t[i as int] != h@[i as int]);
            assert(t.take(h@.len() as int)[i as int] == t[i as int]);
            return false;
        }
        i = i + 1;
    }
    assert(t.take(h@.len() as int) =~= head@);
    true
}

/// The limit in `s[from..to]`.
fn read_limit(s: &Vec<char>, from: usize, to: usize) -> (n: usize)
    requires
        from <= to <= s.len(),
    ensures
        n == limit_of(s@.subrange(from as int, to as int)),
{
    let n: u64 = match parse_number(s, from, to, usize::MAX as u64) {
        Some(n) => n,
        None => 100,
    };
    if n < MAX_LIMIT as u64 {
        n as usize
    } else {
        MAX_LIMIT
    }
}

/// The word that starts at `from`, as the position of its end and where the
/// rest starts.
fn cut(s: &Vec<char>, from: usize, end: usize) -> (r: (usize, usize))
    requires
        from <= end <= s.len(),
    ensures
        from <= r.0 <= r.1 <= end,
        s@.subrange(from as int, r.0 as int) == word(s@.subrange(from as int, end as int)),
        s@.subrange(r.1 as int, end as int) == after_word(s@.subrange(from as int, end as int)),
{
    let at = find_char(s, from, end, ' ');
    let ghost part = s@.subrange(from as int, end as int);
    let next: usize = if at < end {
        at + 1
    } else {
        at
    };
    proof {
        assert(part.take(at - from) =~= s@.subrange(from as int, at as int));
        if at < end {
            assert(part.skip(at - from + 1) =~= s@.subrange(at + 1, end as int));
        } else {
            assert(s@.subrange(next as int, end as int) =~= Seq::<char>::empty());
        }
    }
    (at, next)
}

/// What a request line asks for.
pub fn parse_request(line: &str) -> (r: Request)
    ensures
        r@ == request_of(line@),
{
    let s = chars_of(line);
    let mut end: usize = s.len();
    assert(s@.take(end as int) =~= line@);
    while end > 0 && is_white(s[end - 1])
        invariant
            end <= s@.len(),
            end_trimmed(s@.take(end as int)) == end_trimmed(line@),
        decreases end,
    {
        proof {
            let t = s@.take(end as int);
            assert(t.last() == s@[end - 1]);
            assert(t.drop_last() =~= s@.take(end - 1));
        }
        end = end - 1;
    }
    let ghost t = s@.take(end as int);
    proof {
        if end > 0 {
            assert(t.last() == s@[end - 1]);
        }
        assert(t == end_trimmed(line@));
        reveal_strlit("SEARCH0 ");
        reveal_strlit("SEARCH ");
        reveal_strlit("QUERY ");
    }
    if begins_with(&s, end, "SEARCH0 ") {
        return parse_search(&s, 8, end, true, Ghost(t));
    }
    if begins_with(&s, end, "SEARCH ") {
        return parse_search(&s, 7, end, false, Ghost(t));
    }
    if begins_with(&s, end, "QUERY ") {
        let (a, b) = cut(&s, 6, end);
        let limit = read_limit(&s, 6, a);
        let pattern = text_of(&s, b, end);
        assert(t.skip(6) =~= s@.subrange(6, end as int));
        return Request::Search { limit, opts: SearchOpts::default(), pattern, nul: false };
    }
    let all = text_of(&s, 0, end);
    assert(all@ =~= t);
    if same_text(all.as_str(), "STATS") {
        return Request::Stats;
    }
    Request::Unknown
}

/// `<limit> <flags> <pattern>` from `at` on.
fn parse_search(s: &Vec<char>, at: usize, end: usize, nul: bool, Ghost(t): Ghost<Seq<char>>) -> (r:
    Request)
    requires
        at <= end <= s.len(),
        t == s@.take(end as int),
    ensures
        r@ == search_request(t.skip(at as int), nul),
{
    let (a, b) = cut(s, at, end);
    let limit = read_limit(s, at, a);
    let (c, d) = cut(s, b, end);
    let flags = text_of(s, b, c);
    let opts = SearchOpts::from_flags(flags.as_str());
    let pattern = text_of(s, d, end);
    assert(t.skip(at as int) =~= s@.subrange(at as int, end as int));
    Request::Search { limit, opts, pattern, nul }
}

// Asking.

/// A pattern on one line: a pasted line break must not split the request.
pub open spec fn one_line(pattern: Seq<char>) -> Seq<char> {
    Seq::new(
        pattern.len(),
        |i: int|
            if pattern[i] == '\n' || pattern[i] == '\r' {
                ' '
            } else {
                pattern[i]
            },
    )
}

/// The request for up to `limit` paths as raw bytes.
pub open spec fn search_line(pattern: Seq<char>, limit: nat, o: SearchOpts) -> Seq<char> {
    "SEARCH0 "@ + decimal(limit) + " "@ + flags_of(o) + " "@ + one_line(pattern) + "\n"@
}

/// The request for up to `limit` paths as raw bytes.
pub fn request_line(pattern: &str, limit: usize, o: &SearchOpts) -> (s: String)
    ensures
        s@ == search_line(pattern@, limit as nat, *o),
{
    let mut s = String::new();
    push_text(&mut s, "SEARCH0 ");
    push_number(&mut s, limit as u64);
    push_text(&mut s, " ");
    let flags = o.to_flags();
    push_text(&mut s, flags.as_str());
    push_text(&mut s, " ");
    let chars = chars_of(pattern);
    let ghost head = s@;
    let mut i: usize = 0;
    assert(s@ =~= head + one_line(pattern@).take(0));
    while i < chars.len()
        invariant
            i <= chars@.len(),
            chars@ == pattern@,
            s@ == head + one_line(pattern@).take(i as int),
        decreases chars@.len() - i,
    {
        let c = chars[i];
        let ghost before = s@;
        if c == '\n' || c == '\r' {
            s.push(' ');
        } else {
            s.push(c);
        }
        assert(one_line(pattern@).take(i + 1) =~= one_line(pattern@).take(i as int).push(
            one_line(pattern@)[i as int],
        ));
        assert(s@ =~= head + one_line(pattern@).take(i + 1));
        i = i + 1;
    }
    push_text(&mut s, "\n");
    assert(one_line(pattern@).take(i as int) =~= one_line(pattern@));
    assert(s@ =~= search_line(pattern@, limit as nat, *o));
    s
}

// Replies.

/// What a client is told.
pub enum Reply {
    Paths(Vec<Vec<u8>>),
    Error(String),
    /// Living entries and arena slots.
    Stats(usize, usize),
}

/// Records, each followed by `sep`.
pub open spec fn framed(records: Seq<Seq<u8>>, sep: u8) -> Seq<u8>
    decreases records.len(),
{
    if records.len() == 0 {
        seq![]
    } else {
        framed(records.drop_last(), sep) + records.last() + seq![sep]
    }
}

/// The records that can be told apart: those without `sep`.
pub open spec fn tellable(records: Seq<Seq<u8>>, sep: u8) -> Seq<Seq<u8>>
    decreases records.len(),
{
    if records.len() == 0 {
        seq![]
    } else {
        let before = tellable(records.drop_last(), sep);
        if records.last().contains(sep) {
            before
        } else {
            before.push(records.last())
        }
    }
}

/// `ERR <message>`
pub open spec fn error_record(e: Seq<char>) -> Seq<u8> {
    encode_utf8("ERR "@ + e)
}

/// `entries <n> arena <n>`
pub open spec fn stats_text(n: nat, slots: nat) -> Seq<char> {
    "entries "@ + decimal(n) + " arena "@ + decimal(slots)
}

/// The records of a reply.
pub open spec fn records_of(r: Reply, sep: u8) -> Seq<Seq<u8>> {
    match r {
        Reply::Paths(paths) => tellable(views(paths@), sep),
        Reply::Error(e) => seq![error_record(e@)],
        Reply::Stats(n, slots) => seq![encode_utf8(stats_text(n as nat, slots as nat))],
    }
}

/// A reply as bytes: its records, and an empty one.
pub open spec fn reply_bytes(r: Reply, sep: u8) -> Seq<u8> {
    framed(records_of(r, sep), sep) + seq![sep]
}

/// Does `b` occur in `s`?
fn has_byte(s: &[u8], b: u8) -> (r: bool)
    ensures
        r == s@.contains(b),
{
    let mut i: usize = 0;
    while i < s.len()
        invariant
            i <= s@.len(),
            forall|k: int| 0 <= k < i ==> s@[k] != b,
        decreases s@.len() - i,
    {
        if s[i] == b {
            assert(s@[i as int] == b);
            return true;
        }
        i = i + 1;
    }
    false
}

/// `entries <n> arena <n>`
pub fn stats_line(n: usize, slots: usize) -> (s: String)
    ensures
        s@ == stats_text(n as nat, slots as nat),
{
    let mut s = String::new();
    push_text(&mut s, "entries ");
    push_number(&mut s, n as u64);
    push_text(&mut s, " arena ");
    push_number(&mut s, slots as u64);
    assert(s@ =~= stats_text(n as nat, slots as nat));
    s
}

/// A reply as bytes. A path that holds the separator is withheld: it would
/// read as two.
pub fn encode_reply(r: &Reply, sep: u8) -> (out: Vec<u8>)
    ensures
        out@ == reply_bytes(*r, sep),
{
    let mut out: Vec<u8> = Vec::new();
    match r {
        Reply::Paths(paths) => {
            let ghost all = views(paths@);
            let mut i: usize = 0;
            assert(tellable(all.take(0), sep) =~= Seq::<Seq<u8>>::empty());
            assert(out@ =~= framed(tellable(all.take(0), sep), sep));
            while i < paths.len()
                invariant
                    i <= paths@.len(),
                    all == views(paths@),
                    out@ == framed(tellable(all.take(i as int), sep), sep),
                decreases paths@.len() - i,
            {
                let ghost before = out@;
                let ghost kept = tellable(all.take(i as int), sep);
                proof {
                    assert(all.take(i + 1).drop_last() =~= all.take(i as int));
                    assert(all.take(i + 1).last() == paths@[i as int]@);
                }
                if !has_byte(paths[i].as_slice(), sep) {
                    append(&mut out, paths[i].as_slice());
                    out.push(sep);
                    proof {
                        let p = paths@[i as int]@;
                        assert(kept.push(p).drop_last() =~= kept);
                        assert(out@ =~= before + p + seq![sep]);
                    }
                }
                i = i + 1;
            }
            assert(all.take(i as int) =~= all);
        },
        Reply::Error(e) => {
            let mut s = String::new();
            push_text(&mut s, "ERR ");
            push_text(&mut s, e.as_str());
            assert(s@ =~= "ERR "@ + e@);
            append(&mut out, s.as_str().as_bytes());
            out.push(sep);
            proof {
                lemma_framed_one(error_record(e@), sep);
                assert(out@ =~= error_record(e@) + seq![sep]);
            }
        },
        Reply::Stats(n, slots) => {
            let s = stats_line(*n, *slots);
            append(&mut out, s.as_str().as_bytes());
            out.push(sep);
            proof {
                let record = encode_utf8(stats_text(*n as nat, *slots as nat));
                lemma_framed_one(record, sep);
                assert(out@ =~= record + seq![sep]);
            }
        },
    }
    out.push(sep);
    assert(out@ =~= reply_bytes(*r, sep));
    out
}

proof fn lemma_framed_one(record: Seq<u8>, sep: u8)
    ensures
        framed(seq![record], sep) == record + seq![sep],
{
    let one = seq![record];
    assert(one.drop_last() =~= Seq::<Seq<u8>>::empty());
    assert(framed(one.drop_last(), sep) =~= Seq::<u8>::empty());
    assert(framed(one, sep) =~= record + seq![sep]);
}

/// Starts with `ERR `.
pub open spec fn is_error(record: Seq<u8>) -> bool {
    has_prefix(record, seq![0x45, 0x52, 0x52, 0x20])
}

/// The first `k` records up to an empty one; an error stands for all.
pub open spec fn reply_upto(records: Seq<Seq<u8>>, k: nat) -> Result<(Seq<Seq<u8>>, bool), Seq<u8>>
    decreases k,
{
    if k == 0 {
        Ok((seq![], true))
    } else {
        match reply_upto(records, (k - 1) as nat) {
            Err(e) => Err(e),
            Ok((done, open)) => {
                let record = records[k - 1];
                if !open || record.len() == 0 {
                    Ok((done, false))
                } else if is_error(record) {
                    Err(record.skip(4))
                } else {
                    Ok((done.push(record), true))
                }
            },
        }
    }
}

/// What a reply says: the paths, or the message of an error.
pub open spec fn reply_of(bytes: Seq<u8>, sep: u8) -> Result<Seq<Seq<u8>>, Seq<u8>> {
    let records = pieces(bytes, sep);
    match reply_upto(records, records.len()) {
        Ok((done, _)) => Ok(done),
        Err(e) => Err(e),
    }
}

proof fn lemma_reply_settled(records: Seq<Seq<u8>>, j: nat, k: nat)
    requires
        j <= k,
        reply_upto(records, j) is Err || (reply_upto(records, j) matches Ok((done, open))
            && !open),
    ensures
        reply_upto(records, k) == reply_upto(records, j),
    decreases k,
{
    if j < k {
        lemma_reply_settled(records, j, (k - 1) as nat);
    }
}

/// What a reply says. A message comes back as text, stray bytes replaced.
pub fn read_reply(bytes: &[u8], sep: u8) -> (r: Result<Vec<Vec<u8>>, String>)
    ensures
        match reply_of(bytes@, sep) {
            Ok(paths) => r matches Ok(out) && views(out@) == paths,
            Err(e) => r matches Err(m) && m@ == lossy_text(e),
        },
{
    let records = split_bytes(bytes, sep);
    let ghost all = pieces(bytes@, sep);
    let err: [u8; 4] = [0x45, 0x52, 0x52, 0x20];
    let mut out: Vec<Vec<u8>> = Vec::new();
    let mut i: usize = 0;
    assert(views(out@) =~= Seq::<Seq<u8>>::empty());
    while i < records.len()
        invariant
            i <= records@.len(),
            views(records@) == all,
            all == pieces(bytes@, sep),
            err@ == seq![0x45u8, 0x52, 0x52, 0x20],
            reply_upto(all, i as nat) == Ok::<_, Seq<u8>>((views(out@), true)),
        decreases records@.len() - i,
    {
        let record = &records[i];
        assert(all[i as int] == record@);
        if record.len() == 0 {
            proof {
                lemma_reply_settled(all, (i + 1) as nat, all.len());
            }
            return Ok(out);
        }
        if starts_with(record.as_slice(), err.as_slice()) {
            proof {
                lemma_reply_settled(all, (i + 1) as nat, all.len());
                assert(record@.subrange(4, record@.len() as int) =~= record@.skip(4));
            }
            let tail = copy_range(record.as_slice(), 4, record.len());
            return Err(lossy(tail.as_slice()));
        }
        let ghost before = views(out@);
        let p = copy(record.as_slice());
        out.push(p);
        assert(views(out@) =~= before.push(p@));
        i = i + 1;
    }
    Ok(out)
}

// Answering.

/// The folder that lists `path`: what stands before the last separator, or the
/// root.
pub open spec fn folder(path: Seq<u8>) -> Seq<u8>
    decreases path.len(),
{
    if path.len() == 0 {
        seq![SLASH]
    } else if path.last() == SLASH {
        if path.len() == 1 {
            path
        } else {
            path.drop_last()
        }
    } else {
        folder(path.drop_last())
    }
}

/// The folder that lists `path`.
pub fn folder_of(path: &[u8]) -> (out: Vec<u8>)
    ensures
        out@ == folder(path@),
{
    let mut n: usize = path.len();
    assert(path@.take(n as int) =~= path@);
    while n > 0 && path[n - 1] != SLASH
        invariant
            n <= path@.len(),
            folder(path@.take(n as int)) == folder(path@),
        decreases n,
    {
        proof {
            let t = path@.take(n as int);
            assert(t.last() == path@[n - 1]);
            assert(t.drop_last() =~= path@.take(n - 1));
        }
        n = n - 1;
    }
    let ghost t = path@.take(n as int);
    if n <= 1 {
        let mut out: Vec<u8> = Vec::new();
        out.push(SLASH);
        proof {
            if n == 1 {
                assert(t.last() == path@[0]);
                assert(t =~= seq![SLASH]);
            }
            assert(out@ =~= seq![SLASH]);
        }
        return out;
    }
    assert(t.last() == path@[n - 1]);
    assert(t.drop_last() =~= path@.subrange(0, n - 1));
    copy_range(path, 0, n - 1)
}

/// The first `k` paths that the caller could list itself.
pub open spec fn permitted(paths: Seq<Seq<u8>>, allowed: Seq<bool>, k: nat) -> Seq<Seq<u8>>
    decreases k,
{
    if k == 0 {
        seq![]
    } else {
        let before = permitted(paths, allowed, (k - 1) as nat);
        if allowed[k - 1] {
            before.push(paths[k - 1])
        } else {
            before
        }
    }
}

/// The paths that the caller could list itself, in their order.
pub fn permit(paths: &Vec<Vec<u8>>, allowed: &Vec<bool>) -> (out: Vec<Vec<u8>>)
    requires
        paths@.len() == allowed@.len(),
    ensures
        views(out@) == permitted(views(paths@), allowed@, paths@.len()),
{
    let mut out: Vec<Vec<u8>> = Vec::new();
    let mut i: usize = 0;
    assert(views(out@) =~= Seq::<Seq<u8>>::empty());
    while i < paths.len()
        invariant
            i <= paths@.len(),
            paths@.len() == allowed@.len(),
            views(out@) == permitted(views(paths@), allowed@, i as nat),
        decreases paths@.len() - i,
    {
        let ghost before = views(out@);
        assert(views(paths@)[i as int] == paths@[i as int]@);
        if allowed[i] {
            let p = copy(paths[i].as_slice());
            out.push(p);
            assert(views(out@) =~= before.push(p@));
        }
        i = i + 1;
    }
    out
}

/// The parts were asked in turn for the pattern, each for as many results as
/// are still wanted.
pub open spec fn all_searched(
    parts: Seq<Part>,
    pattern: Seq<char>,
    limit: usize,
    o: SearchOpts,
    replies: Seq<Result<Vec<Vec<u8>>, String>>,
) -> bool {
    &&& replies.len() <= parts.len()
    &&& forall|j: int|
        0 <= j < replies.len() ==> {
            let sofar = all_merged(#[trigger] replies.take(j)).len();
            &&& sofar < limit
            &&& search_outcome(parts[j].index@, pattern, limit - sofar, o, replies[j])
            &&& j < replies.len() - 1 ==> replies[j] is Ok
        }
}

/// What a search over everything returns.
pub open spec fn whole_outcome(
    parts: Seq<Part>,
    pattern: Seq<char>,
    limit: usize,
    o: SearchOpts,
    replies: Seq<Result<Vec<Vec<u8>>, String>>,
    r: Result<Vec<Vec<u8>>, String>,
) -> bool {
    &&& all_searched(parts, pattern, limit, o, replies)
    &&& match r {
        Err(e) => replies.len() > 0 && replies.last() == Err::<Vec<Vec<u8>>, _>(e),
        Ok(out) => {
            &&& replies.len() > 0 ==> replies.last() is Ok
            &&& views(out@) == all_merged(replies)
            &&& replies.len() == parts.len() || out@.len() >= limit
        },
    }
}

/// `reply` is what the parts have to say to the request.
pub open spec fn answers_request(parts: Seq<Part>, request: Request, reply: Reply) -> bool {
    match request {
        Request::Search { limit, opts, pattern, nul } => exists|
            replies: Seq<Result<Vec<Vec<u8>>, String>>,
            r: Result<Vec<Vec<u8>>, String>,
        | #[trigger]
            whole_outcome(parts, pattern@, limit, opts, replies, r) && match r {
                Ok(paths) => reply == Reply::Paths(paths),
                Err(e) => reply == Reply::Error(e),
            },
        Request::Stats => reply matches Reply::Stats(n, slots) && n == living_in(parts, parts.len())
            && slots == slots_in(parts, parts.len()),
        Request::Unknown => reply matches Reply::Error(e) && e@ == "unknown command"@,
    }
}

impl Catalog {
    /// Searches every part.
    pub fn search_all(&self, pattern: &str, limit: usize, o: &SearchOpts) -> (r: Result<
        Vec<Vec<u8>>,
        String,
    >)
        requires
            self.wf(),
        ensures
            exists|replies: Seq<Result<Vec<Vec<u8>>, String>>| #[trigger]
                whole_outcome(self.parts@, pattern@, limit, *o, replies, r),
    {
        let each = |ix: &Index, k: usize| -> (hits: Result<Vec<Vec<u8>>, String>)
            requires
                ix.wf(),
            ensures
                search_outcome(ix@, pattern@, k as int, *o, hits),
            { ix.search_opts_raw(pattern, k, o) };
        let r = self.search(limit, each);
        proof {
            let replies = choose|replies: Seq<Result<Vec<Vec<u8>>, String>>| #[trigger]
                merged_outcome(self.parts@, limit, each, replies, r);
            assert forall|j: int| 0 <= j < replies.len() implies {
                let sofar = all_merged(#[trigger] replies.take(j)).len();
                &&& sofar < limit
                &&& search_outcome(self.parts@[j].index@, pattern@, limit - sofar, *o, replies[j])
                &&& j < replies.len() - 1 ==> replies[j] is Ok
            } by {
                let sofar = all_merged(replies.take(j)).len();
                assert(call_ensures(
                    each,
                    (&self.parts@[j].index, (limit - sofar) as usize),
                    replies[j],
                ));
            }
            assert(whole_outcome(self.parts@, pattern@, limit, *o, replies, r));
        }
        r
    }

    /// The answer to a request, before the caller's own permissions are
    /// applied to the paths in it.
    pub fn answer(&self, request: &Request) -> (reply: Reply)
        requires
            self.wf(),
            self.countable(),
        ensures
            answers_request(self.parts@, *request, reply),
    {
        match request {
            Request::Search { limit, opts, pattern, .. } => {
                let r = self.search_all(pattern.as_str(), *limit, opts);
                let ghost r0 = r;
                proof {
                    let replies = choose|replies: Seq<Result<Vec<Vec<u8>>, String>>| #[trigger]
                        whole_outcome(self.parts@, pattern@, *limit, *opts, replies, r0);
                    assert(whole_outcome(self.parts@, pattern@, *limit, *opts, replies, r0));
                }
                match r {
                    Ok(paths) => Reply::Paths(paths),
                    Err(e) => Reply::Error(e),
                }
            },
            Request::Stats => {
                let (n, slots) = self.stats();
                Reply::Stats(n, slots)
            },
            Request::Unknown => Reply::Error("unknown command".to_owned()),
        }
    }
}

} // verus!
