//! What holds of the socket protocol.

use vstd::prelude::*;
use vstd::utf8::encode_utf8;
use crate::bytes::{views, SLASH};
use crate::catalog::{all_merged, lemma_merged_len, living_in, slots_in, Part};
use crate::lookup::search_outcome;
use crate::options::{flag_if, flags_of, flags_round_trip, opts_of, Kind, SearchOpts};
use crate::protocol::{
    after_word, all_searched, answers_request, begins, end_trimmed, error_record, folder, framed,
    is_error, limit_of, one_line, permitted, reply_bytes, reply_of, reply_upto, request_of,
    search_line, search_request, separator_of, stats_text, tellable, whole_outcome, word, Reply,
    Request, RequestView, MAX_CLIENTS, MAX_LIMIT, MAX_REQUEST,
};
use crate::split::{
    lemma_first_of_is, lemma_pieces_run, lemma_pieces_some, pieces, pieces_part_at_separators,
    runs_are_not_parted,
};
use crate::text::{
    all_digits, decimal, is_digit, lemma_decimal, lemma_number_of_decimal, unsigned, white,
};
use crate::tree::{has_parent, parents_first, path, Node};

verus! {

// Requests.

/// Trimming the end of a text trims the end of its last part, and goes on
/// where nothing of that is left.
proof fn lemma_end_trimmed(x: Seq<char>, y: Seq<char>)
    ensures
        end_trimmed(x + y) == (if end_trimmed(y).len() > 0 {
            x + end_trimmed(y)
        } else {
            end_trimmed(x)
        }),
    decreases y.len(),
{
    if y.len() == 0 {
        assert(x + y =~= x);
    } else if white(y.last()) {
        lemma_end_trimmed(x, y.drop_last());
        assert((x + y).drop_last() =~= x + y.drop_last());
        assert((x + y).last() == y.last());
    } else {
        assert((x + y).last() == y.last());
    }
}

/// The flags hold no white space.
proof fn lemma_flags_plain(o: SearchOpts)
    ensures
        flags_of(o).len() > 0,
        forall|i: int| 0 <= i < flags_of(o).len() ==> !white(#[trigger] flags_of(o)[i]),
        !flags_of(o).contains(' '),
{
    let s = flag_if(o.match_case, 'c') + flag_if(o.regex, 'r') + flag_if(o.in_path, 'p') + flag_if(
        o.kind == Kind::Files,
        'f',
    ) + flag_if(o.kind == Kind::Folders, 'd') + flag_if(o.hide_hidden, 'h');
    assert forall|i: int| 0 <= i < flags_of(o).len() implies !white(
        #[trigger] flags_of(o)[i],
    ) by {
        let c = flags_of(o)[i];
        assert(c == 'c' || c == 'r' || c == 'p' || c == 'f' || c == 'd' || c == 'h' || c == '-');
    }
    assert(white(' '));
}

/// A word, a space and more.
proof fn lemma_word(w: Seq<char>, rest: Seq<char>)
    requires
        !w.contains(' '),
    ensures
        word(w + seq![' '] + rest) == w,
        after_word(w + seq![' '] + rest) == rest,
        word(w) == w,
        after_word(w) == Seq::<char>::empty(),
{
    let s = w + seq![' '] + rest;
    assert forall|i: int| 0 <= i < w.len() implies #[trigger] s[i] != ' ' by {
        assert(w.contains(w[i]));
    }
    assert forall|i: int| 0 <= i < w.len() implies #[trigger] w[i] != ' ' by {
        assert(w.contains(w[i]));
    }
    lemma_first_of_is(s, ' ', w.len() as int);
    lemma_first_of_is(w, ' ', w.len() as int);
    assert(s.take(w.len() as int) =~= w);
    assert(s.skip(w.len() as int + 1) =~= rest);
    assert(w.take(w.len() as int) =~= w);
}

proof fn lemma_decimal_plain(n: nat)
    ensures
        !decimal(n).contains(' '),
{
    lemma_decimal(n);
    assert forall|i: int| 0 <= i < decimal(n).len() implies decimal(n)[i] != ' ' by {
        assert(is_digit(decimal(n)[i]));
    }
}

/// What trimming leaves of a request.
proof fn lemma_request_trimmed(head: Seq<char>, one: Seq<char>)
    requires
        head.len() > 0,
        !white(head.last()),
    ensures
        end_trimmed(head + seq![' '] + one + seq!['\n']) == (if end_trimmed(one).len() > 0 {
            head + seq![' '] + end_trimmed(one)
        } else {
            head
        }),
{
    let space = seq![' '];
    let end = seq!['\n'];
    assert(white('\n') && white(' '));
    reveal_with_fuel(end_trimmed, 2);
    assert(end.drop_last() =~= Seq::<char>::empty());
    assert(space.drop_last() =~= Seq::<char>::empty());
    lemma_end_trimmed(head + space + one, end);
    lemma_end_trimmed(head + space, one);
    lemma_end_trimmed(head, space);
    assert(end_trimmed(head) == head);
}

/// What is read from `<limit> <flags> <pattern>`.
proof fn lemma_search_request(num: Seq<char>, flags: Seq<char>, p: Seq<char>)
    requires
        !num.contains(' '),
        !flags.contains(' '),
    ensures
        search_request(num + seq![' '] + flags + seq![' '] + p, true) == (RequestView::Search {
            limit: limit_of(num),
            opts: opts_of(flags),
            pattern: p,
            nul: true,
        }),
        search_request(num + seq![' '] + flags, true) == (RequestView::Search {
            limit: limit_of(num),
            opts: opts_of(flags),
            pattern: seq![],
            nul: true,
        }),
{
    lemma_word(num, flags + seq![' '] + p);
    lemma_word(num, flags);
    lemma_word(flags, p);
    assert(num + seq![' '] + (flags + seq![' '] + p) =~= num + seq![' '] + flags + seq![' '] + p);
}

/// The daemon reads from a request what the client put into it: the options,
/// the limit as far as the bound allows, and the pattern on one line without
/// white space at its end.
pub proof fn requests_are_understood(pattern: Seq<char>, limit: nat, o: SearchOpts)
    requires
        limit <= usize::MAX,
    ensures
        request_of(search_line(pattern, limit, o)) == (RequestView::Search {
            limit: if limit < MAX_LIMIT {
                limit
            } else {
                MAX_LIMIT as nat
            },
            opts: o,
            pattern: end_trimmed(one_line(pattern)),
            nul: true,
        }),
{
    let num = decimal(limit);
    let flags = flags_of(o);
    let one = one_line(pattern);
    let verb = "SEARCH0 "@;
    lemma_flags_plain(o);
    lemma_decimal_plain(limit);
    lemma_number_of_decimal(limit, usize::MAX as nat);
    flags_round_trip(o);
    lemma_understood(verb, num, flags, one);
    let line = verb + num + seq![' '] + flags + seq![' '] + one + seq!['\n'];
    assert(verb.len() == 8) by {
        reveal_strlit("SEARCH0 ");
    }
    assert(search_line(pattern, limit, o) == line) by {
        reveal_strlit(" ");
        reveal_strlit("\n");
        assert(" "@ =~= seq![' ']);
        assert("\n"@ =~= seq!['\n']);
    }
    assert(limit_of(num) == (if limit < MAX_LIMIT {
        limit
    } else {
        MAX_LIMIT as nat
    }));
}

proof fn lemma_understood(verb: Seq<char>, num: Seq<char>, flags: Seq<char>, one: Seq<char>)
    requires
        !num.contains(' '),
        !flags.contains(' '),
        flags.len() > 0,
        !white(flags[flags.len() - 1]),
    ensures
        ({
            let t = end_trimmed(
                verb + num + seq![' '] + flags + seq![' '] + one + seq!['\n'],
            );
            begins(t, verb) && search_request(t.skip(verb.len() as int), true) == (
            RequestView::Search {
                limit: limit_of(num),
                opts: opts_of(flags),
                pattern: end_trimmed(one),
                nul: true,
            })
        }),
{
    let space = seq![' '];
    let head = verb + num + space + flags;
    let p = end_trimmed(one);
    let t = end_trimmed(head + space + one + seq!['\n']);
    lemma_request_trimmed(head, one);
    lemma_search_request(num, flags, p);
    assert(t.take(verb.len() as int) =~= verb);
    if p.len() > 0 {
        assert(t.skip(verb.len() as int) =~= num + space + flags + space + p);
    } else {
        assert(t.skip(verb.len() as int) =~= num + space + flags);
        assert(p =~= Seq::<char>::empty());
    }
}

/// No request is granted more results than the bound.
pub proof fn no_request_exceeds_the_bound(line: Seq<char>)
    ensures
        request_of(line) matches RequestView::Search { limit, .. } ==> limit <= MAX_LIMIT,
{
}

// Replies.

/// A path as the daemon reports it.
pub open spec fn is_path(p: Seq<u8>) -> bool {
    p.len() > 0 && p[0] == SLASH
}

proof fn lemma_framed_pieces(records: Seq<Seq<u8>>, sep: u8)
    requires
        forall|i: int| 0 <= i < records.len() ==> !(#[trigger] records[i]).contains(sep),
    ensures
        pieces(framed(records, sep), sep) == records.push(seq![]),
    decreases records.len(),
{
    if records.len() == 0 {
        assert(pieces(framed(records, sep), sep) =~= records.push(seq![]));
    } else {
        let head = records.drop_last();
        let last = records.last();
        assert forall|i: int| 0 <= i < head.len() implies !(#[trigger] head[i]).contains(sep) by {
            assert(head[i] == records[i]);
        }
        lemma_framed_pieces(head, sep);
        assert(!records[records.len() - 1].contains(sep));
        let before = framed(head, sep);
        lemma_pieces_run(before, last, sep);
        let ps = pieces(before, sep);
        assert(ps.drop_last() =~= head);
        assert(ps.last() + last =~= last);
        let all = framed(records, sep);
        assert(all.drop_last() =~= before + last);
        assert(head.push(last) =~= records);
    }
}

proof fn lemma_reply_pieces(records: Seq<Seq<u8>>, sep: u8)
    requires
        forall|i: int| 0 <= i < records.len() ==> !(#[trigger] records[i]).contains(sep),
    ensures
        pieces(framed(records, sep) + seq![sep], sep) == records.push(seq![]).push(seq![]),
{
    lemma_framed_pieces(records, sep);
    let all = framed(records, sep) + seq![sep];
    assert(all.drop_last() =~= framed(records, sep));
}

proof fn lemma_paths_read(records: Seq<Seq<u8>>, rest: Seq<Seq<u8>>, k: nat)
    requires
        k <= records.len(),
        forall|i: int| 0 <= i < records.len() ==> is_path(#[trigger] records[i]),
    ensures
        reply_upto(records + rest, k) == Ok::<_, Seq<u8>>((records.take(k as int), true)),
    decreases k,
{
    if k == 0 {
        assert(records.take(0) =~= Seq::<Seq<u8>>::empty());
    } else {
        lemma_paths_read(records, rest, (k - 1) as nat);
        let p = records[k - 1];
        assert(is_path(records[k - 1]));
        assert(!is_error(p)) by {
            if is_error(p) {
                assert(p.take(4)[0] == p[0]);
            }
        }
        assert(records.take(k as int) =~= records.take(k - 1).push(p));
    }
}

proof fn lemma_tellable(paths: Seq<Seq<u8>>, sep: u8)
    ensures
        forall|i: int|
            0 <= i < tellable(paths, sep).len() ==> !(#[trigger] tellable(paths, sep)[i]).contains(
                sep,
            ) && paths.contains(tellable(paths, sep)[i]),
    decreases paths.len(),
{
    if paths.len() > 0 {
        let head = paths.drop_last();
        lemma_tellable(head, sep);
        let before = tellable(head, sep);
        let all = tellable(paths, sep);
        assert forall|i: int| 0 <= i < all.len() implies !(#[trigger] all[i]).contains(sep)
            && paths.contains(all[i]) by {
            if i < before.len() {
                assert(all[i] == before[i]);
                let q = choose|q: int| 0 <= q < head.len() && head[q] == before[i];
                assert(paths[q] == before[i]);
            } else {
                assert(paths[paths.len() - 1] == all[i]);
            }
        }
    }
}

/// A client reads from a reply exactly the paths that were put into it, in
/// their order, but for those that hold the separator. Whatever the names
/// hold, none reads as the end of the reply, as an error or as two.
pub proof fn replies_cannot_be_forged(paths: Vec<Vec<u8>>, sep: u8)
    requires
        forall|i: int| 0 <= i < paths@.len() ==> is_path((#[trigger] paths@[i])@),
    ensures
        reply_of(reply_bytes(Reply::Paths(paths), sep), sep) == Ok::<_, Seq<u8>>(
            tellable(views(paths@), sep),
        ),
{
    let all = views(paths@);
    let records = tellable(all, sep);
    lemma_tellable(all, sep);
    assert forall|i: int| 0 <= i < records.len() implies is_path(#[trigger] records[i]) by {
        assert(all.contains(records[i]));
        let q = choose|q: int| 0 <= q < all.len() && all[q] == records[i];
        assert(is_path(paths@[q]@));
    }
    lemma_reply_pieces(records, sep);
    let none = Seq::<u8>::empty();
    let ps = records.push(none).push(none);
    let rest = seq![none, none];
    assert(ps =~= records + rest);
    lemma_paths_read(records, rest, records.len());
    assert(records.take(records.len() as int) =~= records);
    reveal_with_fuel(reply_upto, 3);
    assert(ps[records.len() as int].len() == 0);
    assert(reply_upto(ps, records.len() + 1) == Ok::<_, Seq<u8>>((records, false)));
    assert(reply_upto(ps, records.len() + 2) == Ok::<_, Seq<u8>>((records, false)));
}

proof fn lemma_all_tellable(paths: Seq<Seq<u8>>, sep: u8)
    requires
        forall|i: int| 0 <= i < paths.len() ==> !(#[trigger] paths[i]).contains(sep),
    ensures
        tellable(paths, sep) == paths,
    decreases paths.len(),
{
    if paths.len() > 0 {
        let head = paths.drop_last();
        assert forall|i: int| 0 <= i < head.len() implies !(#[trigger] head[i]).contains(sep) by {
            assert(head[i] == paths[i]);
        }
        lemma_all_tellable(head, sep);
        assert(!paths[paths.len() - 1].contains(sep));
        assert(head.push(paths.last()) =~= paths);
    }
}

/// Where no path holds the separator, as none holds a NUL, every path comes
/// back byte for byte.
pub proof fn replies_round_trip(paths: Vec<Vec<u8>>, sep: u8)
    requires
        forall|i: int|
            0 <= i < paths@.len() ==> is_path((#[trigger] paths@[i])@) && !paths@[i]@.contains(sep),
    ensures
        reply_of(reply_bytes(Reply::Paths(paths), sep), sep) == Ok::<_, Seq<u8>>(views(paths@)),
{
    replies_cannot_be_forged(paths, sep);
    let all = views(paths@);
    assert forall|i: int| 0 <= i < all.len() implies !(#[trigger] all[i]).contains(sep) by {
        assert(!paths@[i]@.contains(sep));
    }
    lemma_all_tellable(all, sep);
}

/// `ERR ` in bytes.
proof fn lemma_error_record(e: Seq<char>)
    ensures
        is_error(error_record(e)),
        error_record(e).skip(4) == encode_utf8(e),
{
    reveal_strlit("ERR ");
    let s = "ERR "@ + e;
    assert("ERR "@ =~= seq!['E', 'R', 'R', ' ']);
    reveal_with_fuel(encode_utf8, 5);
    let s1 = s.drop_first();
    let s2 = s1.drop_first();
    let s3 = s2.drop_first();
    let s4 = s3.drop_first();
    assert(s[0] == 'E' && s1[0] == 'R' && s2[0] == 'R' && s3[0] == ' ');
    assert(s4 =~= e);
    lemma_ascii_scalar('E');
    lemma_ascii_scalar('R');
    lemma_ascii_scalar(' ');
    assert(encode_utf8(s3) =~= seq![0x20u8] + encode_utf8(e));
    assert(encode_utf8(s2) =~= seq![0x52u8] + encode_utf8(s3));
    assert(encode_utf8(s1) =~= seq![0x52u8] + encode_utf8(s2));
    assert(encode_utf8(s) =~= seq![0x45u8] + encode_utf8(s1));
    assert(error_record(e).take(4) =~= seq![0x45u8, 0x52, 0x52, 0x20]);
    assert(error_record(e).skip(4) =~= encode_utf8(e));
}

proof fn lemma_ascii_scalar(c: char)
    requires
        (c as u32) < 0x80,
    ensures
        vstd::utf8::encode_scalar(c as u32) == seq![(c as u32) as u8],
{
    let u = c as u32;
    assert(u < 0x80 ==> (u & 0x7F) as u8 == u as u8) by (bit_vector);
    assert(vstd::utf8::encode_scalar(u) =~= seq![u as u8]);
}

/// A client that is refused learns why.
pub proof fn errors_come_back(e: String, sep: u8)
    requires
        !error_record(e@).contains(sep),
    ensures
        reply_of(reply_bytes(Reply::Error(e), sep), sep) == Err::<Seq<Seq<u8>>, _>(
            encode_utf8(e@),
        ),
{
    let record = error_record(e@);
    let records = seq![record];
    lemma_error_record(e@);
    lemma_reply_pieces(records, sep);
    let ps = records.push(seq![]).push(seq![]);
    reveal_with_fuel(reply_upto, 4);
    assert(ps[0] == record);
    assert(reply_upto(ps, 1) == Err::<(Seq<Seq<u8>>, bool), _>(encode_utf8(e@)));
    assert(reply_upto(ps, 3) == Err::<(Seq<Seq<u8>>, bool), _>(encode_utf8(e@)));
}

// Permissions.

proof fn lemma_permitted(paths: Seq<Seq<u8>>, allowed: Seq<bool>, k: nat, p: Seq<u8>)
    requires
        k <= paths.len(),
        paths.len() == allowed.len(),
    ensures
        permitted(paths, allowed, k).contains(p) <==> exists|i: int|
            0 <= i < k && allowed[i] && #[trigger] paths[i] == p,
    decreases k,
{
    if k > 0 {
        let m = (k - 1) as nat;
        lemma_permitted(paths, allowed, m, p);
        let before = permitted(paths, allowed, m);
        crate::ids::lemma_push_contains(before, paths[k - 1], p);
        if allowed[k - 1] && paths[k - 1] == p {
            assert(paths[k - 1] == p);
        }
        if exists|i: int| 0 <= i < k && allowed[i] && #[trigger] paths[i] == p {
            let i = choose|i: int| 0 <= i < k && allowed[i] && #[trigger] paths[i] == p;
            if i < m {
                assert(before.contains(p));
            }
        }
    }
}

/// A caller sees exactly what it could list itself.
pub proof fn callers_see_only_what_they_may_list(
    paths: Seq<Seq<u8>>,
    allowed: Seq<bool>,
    p: Seq<u8>,
)
    requires
        paths.len() == allowed.len(),
    ensures
        permitted(paths, allowed, paths.len()).contains(p) <==> exists|i: int|
            0 <= i < paths.len() && allowed[i] && #[trigger] paths[i] == p,
{
    lemma_permitted(paths, allowed, paths.len(), p);
}

// Results.

/// Paths start with the name of the root they lie in, and so with '/' where
/// the root's does.
pub proof fn paths_start_with_a_slash(nodes: Seq<Node>, id: int)
    requires
        parents_first(nodes),
        0 <= id < nodes.len(),
        forall|i: int|
            0 <= i < nodes.len() && !has_parent(nodes, i) ==> (#[trigger] nodes[i]).name.len() == 0
                || nodes[i].name[0] == SLASH,
    ensures
        is_path(path(nodes, id)),
    decreases id,
{
    if has_parent(nodes, id) {
        assert(nodes[id].parent < id);
        paths_start_with_a_slash(nodes, nodes[id].parent as int);
        let above = path(nodes, nodes[id].parent as int);
        assert(path(nodes, id)[0] == above[0]);
    } else {
        assert(nodes[id].name.len() == 0 || nodes[id].name[0] == SLASH);
    }
}

/// However many folders are indexed, a search returns no more than was asked
/// for.
pub proof fn searches_respect_the_limit(
    parts: Seq<Part>,
    pattern: Seq<char>,
    limit: usize,
    o: SearchOpts,
    replies: Seq<Result<Vec<Vec<u8>>, String>>,
)
    requires
        all_searched(parts, pattern, limit, o, replies),
    ensures
        all_merged(replies).len() <= limit,
{
    if replies.len() > 0 {
        let j = replies.len() - 1;
        assert(replies.take(j) =~= replies.drop_last());
        let sofar = all_merged(replies.take(j)).len();
        assert(search_outcome(parts[j].index@, pattern, limit - sofar, o, replies[j]));
        match replies.last() {
            Ok(hits) => {
                lemma_merged_len(all_merged(replies.drop_last()), views(hits@));
                assert(views(hits@).len() <= limit - sofar);
            },
            Err(_) => {},
        }
    }
}

// The forms of a request, word by word.

/// Nothing but white space.
pub open spec fn blank(s: Seq<char>) -> bool {
    forall|i: int| 0 <= i < s.len() ==> white(#[trigger] s[i])
}

/// White space at the end does not count, and nothing else is taken off.
pub proof fn requests_end_where_white_space_starts(s: Seq<char>, tail: Seq<char>)
    requires
        blank(tail),
        s.len() == 0 || !white(s.last()),
    ensures
        end_trimmed(s + tail) == s,
        request_of(s + tail) == request_of(s),
    decreases tail.len(),
{
    if tail.len() == 0 {
        assert(s + tail =~= s);
    } else {
        let t = tail.drop_last();
        assert(white(tail[tail.len() - 1]));
        assert forall|i: int| 0 <= i < t.len() implies white(#[trigger] t[i]) by {
            assert(white(tail[i]));
        }
        requests_end_where_white_space_starts(s, t);
        assert((s + tail).drop_last() =~= s + t);
        assert((s + tail).last() == tail.last());
    }
    if s.len() > 0 {
        assert(end_trimmed(s) == s);
    }
}

/// A search names a limit, its flags and a pattern, which may hold blanks; by
/// the one verb the paths come back as raw bytes, by the other as lines.
pub proof fn searches_name_limit_flags_and_pattern(
    num: Seq<char>,
    flags: Seq<char>,
    pattern: Seq<char>,
)
    requires
        !num.contains(' '),
        !flags.contains(' '),
        pattern.len() > 0,
        !white(pattern.last()),
    ensures
        request_of("SEARCH0 "@ + (num + seq![' '] + (flags + seq![' '] + pattern))) == (
        RequestView::Search { limit: limit_of(num), opts: opts_of(flags), pattern, nul: true }),
        request_of("SEARCH "@ + (num + seq![' '] + (flags + seq![' '] + pattern))) == (
        RequestView::Search { limit: limit_of(num), opts: opts_of(flags), pattern, nul: false }),
{
    let rest = num + seq![' '] + (flags + seq![' '] + pattern);
    let (raw, lines) = ("SEARCH0 "@ + rest, "SEARCH "@ + rest);
    reveal_strlit("SEARCH0 ");
    reveal_strlit("SEARCH ");
    lemma_word(num, flags + seq![' '] + pattern);
    lemma_word(flags, pattern);
    assert(raw.last() == pattern.last() && lines.last() == pattern.last());
    assert(raw.take(8) =~= "SEARCH0 "@);
    assert(raw.skip(8) =~= rest);
    assert(lines.take(7) =~= "SEARCH "@);
    assert(lines.skip(7) =~= rest);
    assert(lines.len() >= 8 ==> lines.take(8)[6] == ' ');
    assert("SEARCH0 "@[6] == '0');
}

/// A query names a limit and a pattern, and no option is set.
pub proof fn queries_name_limit_and_pattern(num: Seq<char>, pattern: Seq<char>)
    requires
        !num.contains(' '),
        pattern.len() > 0,
        !white(pattern.last()),
    ensures
        request_of("QUERY "@ + (num + seq![' '] + pattern)) == (RequestView::Search {
            limit: limit_of(num),
            opts: SearchOpts {
                match_case: false,
                regex: false,
                in_path: false,
                kind: Kind::All,
                hide_hidden: false,
            },
            pattern,
            nul: false,
        }),
{
    let rest = num + seq![' '] + pattern;
    let line = "QUERY "@ + rest;
    reveal_strlit("SEARCH0 ");
    reveal_strlit("SEARCH ");
    reveal_strlit("QUERY ");
    lemma_word(num, pattern);
    assert(line.last() == pattern.last());
    assert(line.take(6) =~= "QUERY "@);
    assert(line.skip(6) =~= rest);
    assert("SEARCH0 "@[0] == 'S' && "SEARCH "@[0] == 'S' && line[0] == 'Q');
    assert(line.len() >= 8 ==> line.take(8)[0] == 'Q');
    assert(line.len() >= 7 ==> line.take(7)[0] == 'Q');
}

/// Nothing but `STATS` asks for the figures, and what starts with no verb is
/// not known.
pub proof fn other_requests_are_not_known(line: Seq<char>)
    requires
        line.len() > 0,
        !white(line.last()),
    ensures
        request_of("STATS"@) == RequestView::Stats,
        request_of(line) == RequestView::Stats <==> line == "STATS"@,
        line[0] != 'S' && line[0] != 'Q' ==> request_of(line) == RequestView::Unknown,
        !line.contains(' ') && line != "STATS"@ ==> request_of(line) == RequestView::Unknown,
        request_of(Seq::<char>::empty()) == RequestView::Unknown,
{
    let stats = "STATS"@;
    let none = Seq::<char>::empty();
    reveal_strlit("SEARCH0 ");
    reveal_strlit("SEARCH ");
    reveal_strlit("QUERY ");
    reveal_strlit("STATS");
    assert(stats.len() == 5);
    assert(!white('S'));
    assert(end_trimmed(stats) == stats);
    assert(end_trimmed(line) == line);
    assert(end_trimmed(none) == none);
    assert("SEARCH0 "@[0] == 'S' && "SEARCH "@[0] == 'S' && "QUERY "@[0] == 'Q');
    assert("SEARCH0 "@[7] == ' ' && "SEARCH "@[6] == ' ' && "QUERY "@[5] == ' ');
    if begins(line, "SEARCH0 "@) {
        assert(line.take(8)[0] == line[0] && line.take(8)[7] == line[7]);
        assert(line.contains(line[7]));
    }
    if begins(line, "SEARCH "@) {
        assert(line.take(7)[0] == line[0] && line.take(7)[6] == line[6]);
        assert(line.contains(line[6]));
    }
    if begins(line, "QUERY "@) {
        assert(line.take(6)[0] == line[0] && line.take(6)[5] == line[5]);
        assert(line.contains(line[5]));
    }
    assert(stats[0] == 'S');
}

/// A limit is what it says, up to a hundred thousand; what is no number stands
/// for a hundred.
pub proof fn limits_are_bounded(n: nat, other: Seq<char>)
    requires
        n <= usize::MAX,
        other.len() == 0 || !('0' <= other.last() <= '9'),
    ensures
        n <= 100_000 ==> limit_of(decimal(n)) == n,
        n > 100_000 ==> limit_of(decimal(n)) == 100_000,
        limit_of(other) == 100,
{
    lemma_number_of_decimal(n, usize::MAX as nat);
    let d = unsigned(other);
    if d.len() > 0 && all_digits(d) {
        assert(is_digit(d[d.len() - 1]));
        assert(d.last() == other.last());
    }
}

/// Raw paths end in a zero, and everything else is lines.
pub proof fn raw_replies_end_in_zeros(line: Seq<char>)
    ensures
        separator_of(request_of(line)) == (if request_of(line) matches RequestView::Search {
            nul: true,
            ..
        } {
            0x00u8
        } else {
            0x0a
        }),
{
}

/// A pattern is sent on one line: line breaks become blanks, and every other
/// character stays.
pub proof fn patterns_are_sent_on_one_line(pattern: Seq<char>, limit: nat, o: SearchOpts, i: int)
    ensures
        one_line(pattern).len() == pattern.len(),
        0 <= i < pattern.len() ==> one_line(pattern)[i] == (if pattern[i] == '\n' || pattern[i]
            == '\r' {
            ' '
        } else {
            pattern[i]
        }),
        search_line(pattern, limit, o).last() == '\n',
{
    reveal_strlit("\n");
}

// What a reply is made of.

/// Records are framed one after the other, each by itself.
pub proof fn records_are_framed_one_by_one(a: Seq<Seq<u8>>, b: Seq<Seq<u8>>, r: Seq<u8>, sep: u8)
    ensures
        framed(a + b, sep) == framed(a, sep) + framed(b, sep),
        framed(seq![r], sep) == r + seq![sep],
        framed(Seq::<Seq<u8>>::empty(), sep) == Seq::<u8>::empty(),
    decreases b.len(),
{
    let one = seq![r];
    let none = Seq::<Seq<u8>>::empty();
    assert(one.drop_last() =~= none);
    assert(framed(none, sep) =~= Seq::<u8>::empty());
    assert(framed(one, sep) =~= r + seq![sep]);
    if b.len() == 0 {
        assert(a + b =~= a);
        assert(framed(a, sep) + framed(b, sep) =~= framed(a, sep));
    } else {
        records_are_framed_one_by_one(a, b.drop_last(), r, sep);
        assert((a + b).drop_last() =~= a + b.drop_last());
        assert(framed(a + b, sep) =~= framed(a, sep) + framed(b, sep));
    }
}

/// A path is withheld when it holds the separator, and only by itself: those
/// before and behind it are told.
pub proof fn paths_are_withheld_one_by_one(a: Seq<Seq<u8>>, b: Seq<Seq<u8>>, p: Seq<u8>, sep: u8)
    ensures
        tellable(a + b, sep) == tellable(a, sep) + tellable(b, sep),
        p.contains(sep) ==> tellable(seq![p], sep) == Seq::<Seq<u8>>::empty(),
        !p.contains(sep) ==> tellable(seq![p], sep) == seq![p],
    decreases b.len(),
{
    let one = seq![p];
    let none = Seq::<Seq<u8>>::empty();
    assert(one.drop_last() =~= none);
    assert(tellable(none, sep) =~= none);
    assert(none.push(p) =~= one);
    if b.len() == 0 {
        assert(a + b =~= a);
        assert(tellable(a, sep) + tellable(b, sep) =~= tellable(a, sep));
    } else {
        paths_are_withheld_one_by_one(a, b.drop_last(), p, sep);
        assert((a + b).drop_last() =~= a + b.drop_last());
        assert(tellable(a + b, sep) =~= tellable(a, sep) + tellable(b, sep));
    }
}

/// A reply is its records and an empty one: the paths, or `ERR` and the message,
/// or the two figures, each behind its word.
pub proof fn replies_hold_their_records(r: Reply, sep: u8)
    ensures
        match r {
            Reply::Paths(paths) => reply_bytes(r, sep) == framed(
                tellable(views(paths@), sep),
                sep,
            ) + seq![sep],
            Reply::Error(e) => reply_bytes(r, sep) == seq![0x45u8, 0x52, 0x52, 0x20] + encode_utf8(
                e@,
            ) + seq![sep, sep],
            Reply::Stats(n, slots) => reply_bytes(r, sep) == encode_utf8(
                stats_text(n as nat, slots as nat),
            ) + seq![sep, sep],
        },
{
    match r {
        Reply::Paths(paths) => {},
        Reply::Error(e) => {
            let record = error_record(e@);
            lemma_error_record(e@);
            records_are_framed_one_by_one(seq![], seq![], record, sep);
            let head = seq![0x45u8, 0x52, 0x52, 0x20];
            assert(record =~= record.take(4) + record.skip(4));
            assert(reply_bytes(r, sep) =~= head + encode_utf8(e@) + seq![sep, sep]);
        },
        Reply::Stats(n, slots) => {
            let record = encode_utf8(stats_text(n as nat, slots as nat));
            records_are_framed_one_by_one(seq![], seq![], record, sep);
            assert(reply_bytes(r, sep) =~= record + seq![sep, sep]);
        },
    }
}

/// The figures are four words: `entries`, how many live, `arena`, and how many
/// there is room for.
pub proof fn figures_follow_their_words(n: nat, slots: nat)
    ensures
        pieces(stats_text(n, slots), ' ') == seq![
            "entries"@,
            decimal(n),
            "arena"@,
            decimal(slots),
        ],
{
    reveal_strlit("entries ");
    reveal_strlit("entries");
    reveal_strlit(" arena ");
    reveal_strlit("arena");
    let (a, b) = (decimal(n), decimal(slots));
    let tail = "arena"@ + seq![' '] + b;
    lemma_decimal_plain(n);
    lemma_decimal_plain(slots);
    assert(stats_text(n, slots) =~= "entries"@ + seq![' '] + (a + seq![' '] + tail));
    pieces_part_at_separators("entries"@, a + seq![' '] + tail, ' ');
    pieces_part_at_separators(a, tail, ' ');
    pieces_part_at_separators("arena"@, b, ' ');
    runs_are_not_parted("entries"@, ' ');
    runs_are_not_parted(a, ' ');
    runs_are_not_parted("arena"@, ' ');
    runs_are_not_parted(b, ' ');
    assert(pieces(stats_text(n, slots), ' ') =~= seq!["entries"@, a, "arena"@, b]);
}

/// What follows an empty record is not read.
pub proof fn replies_end_with_an_empty_record(records: Seq<Seq<u8>>, rest: Seq<u8>, sep: u8)
    requires
        forall|i: int|
            0 <= i < records.len() ==> is_path(#[trigger] records[i]) && !records[i].contains(sep),
    ensures
        reply_of(framed(records, sep) + seq![sep] + rest, sep) == Ok::<_, Seq<u8>>(records),
{
    let none = Seq::<u8>::empty();
    lemma_framed_pieces(records, sep);
    pieces_part_at_separators(framed(records, sep), rest, sep);
    let tail = seq![none] + pieces(rest, sep);
    let ps = records + tail;
    assert(records.push(none) + pieces(rest, sep) =~= ps);
    lemma_paths_read(records, tail, records.len());
    assert(records.take(records.len() as int) =~= records);
    assert(ps[records.len() as int] =~= none);
    assert(reply_upto(ps, records.len() + 1) == Ok::<_, Seq<u8>>((records, false)));
    lemma_pieces_some(rest, sep);
    lemma_settled(ps, records, records.len() + 1, ps.len());
}

proof fn lemma_settled(ps: Seq<Seq<u8>>, done: Seq<Seq<u8>>, j: nat, k: nat)
    requires
        j <= k,
        reply_upto(ps, j) == Ok::<_, Seq<u8>>((done, false)),
    ensures
        reply_upto(ps, k) == Ok::<_, Seq<u8>>((done, false)),
    decreases k,
{
    if j < k {
        lemma_settled(ps, done, j, (k - 1) as nat);
    }
}

/// An error counts though paths came before it: its message is all that is
/// told.
pub proof fn errors_stand_for_all(records: Seq<Seq<u8>>, e: Seq<u8>, rest: Seq<u8>, sep: u8)
    requires
        forall|i: int|
            0 <= i < records.len() ==> is_path(#[trigger] records[i]) && !records[i].contains(sep),
        !e.contains(sep),
        sep != 0x45 && sep != 0x52 && sep != 0x20,
    ensures
        reply_of(
            framed(records, sep) + (seq![0x45u8, 0x52, 0x52, 0x20] + e + seq![sep] + rest),
            sep,
        ) == Err::<Seq<Seq<u8>>, _>(e),
{
    let none = Seq::<u8>::empty();
    let head = seq![0x45u8, 0x52, 0x52, 0x20];
    let record = head + e;
    let before = framed(records, sep);
    assert forall|i: int| 0 <= i < record.len() implies record[i] != sep by {
        if i >= 4 {
            assert(e.contains(e[i - 4]));
        }
    }
    lemma_framed_pieces(records, sep);
    lemma_pieces_run(before, record, sep);
    pieces_part_at_separators(before + record, rest, sep);
    assert(before + record + seq![sep] + rest =~= before + (record + seq![sep] + rest));
    let ps = pieces(before + record, sep) + pieces(rest, sep);
    assert(records.push(none).drop_last() =~= records);
    assert(records.push(none).last() + record =~= record);
    let tail = seq![record] + pieces(rest, sep);
    assert(ps =~= records + tail);
    lemma_paths_read(records, tail, records.len());
    assert(records.take(records.len() as int) =~= records);
    assert(ps[records.len() as int] == record);
    assert(record.take(4) =~= head);
    assert(record.skip(4) =~= e);
    assert(is_error(record));
    assert(reply_upto(ps, records.len() + 1) == Err::<(Seq<Seq<u8>>, bool), _>(e));
    lemma_refused(ps, e, records.len() + 1, ps.len());
}

proof fn lemma_refused(ps: Seq<Seq<u8>>, e: Seq<u8>, j: nat, k: nat)
    requires
        j <= k,
        reply_upto(ps, j) == Err::<(Seq<Seq<u8>>, bool), _>(e),
    ensures
        reply_upto(ps, k) == Err::<(Seq<Seq<u8>>, bool), _>(e),
    decreases k,
{
    if j < k {
        lemma_refused(ps, e, j, (k - 1) as nat);
    }
}

/// A path is listed by the folder before its last separator, and at the top by
/// the root.
pub proof fn folders_list_their_names(dir: Seq<u8>, name: Seq<u8>)
    requires
        !name.contains(0x2f),
    ensures
        dir.len() > 0 ==> folder(dir + seq![0x2fu8] + name) == dir,
        folder(seq![0x2fu8] + name) == seq![0x2fu8],
        folder(name) == seq![0x2fu8],
    decreases name.len(),
{
    let slash = seq![0x2fu8];
    let (x, y) = (dir + slash + name, slash + name);
    if name.len() == 0 {
        assert(x =~= dir + slash);
        assert(x.drop_last() =~= dir);
        assert(y =~= slash);
    } else {
        let t = name.drop_last();
        assert(name.contains(name.last()));
        assert forall|i: int| 0 <= i < t.len() implies t[i] != 0x2f by {
            assert(name.contains(name[i]));
        }
        folders_list_their_names(dir, t);
        assert(x.drop_last() =~= dir + slash + t);
        assert(y.drop_last() =~= slash + t);
        assert(x.last() == name.last() && y.last() == name.last());
    }
}

/// Each path is told or not by its own permission, and their order stays.
pub proof fn permissions_count_one_by_one(
    paths: Seq<Seq<u8>>,
    allowed: Seq<bool>,
    p: Seq<u8>,
    may: bool,
)
    requires
        paths.len() == allowed.len(),
    ensures
        permitted(paths.push(p), allowed.push(may), paths.len() + 1) == (if may {
            permitted(paths, allowed, paths.len()).push(p)
        } else {
            permitted(paths, allowed, paths.len())
        }),
        permitted(paths, allowed, 0) == Seq::<Seq<u8>>::empty(),
{
    lemma_permitted_fewer(paths, allowed, p, may, paths.len());
}

proof fn lemma_permitted_fewer(
    paths: Seq<Seq<u8>>,
    allowed: Seq<bool>,
    p: Seq<u8>,
    may: bool,
    k: nat,
)
    requires
        paths.len() == allowed.len(),
        k <= paths.len(),
    ensures
        permitted(paths.push(p), allowed.push(may), k) == permitted(paths, allowed, k),
    decreases k,
{
    if k > 0 {
        lemma_permitted_fewer(paths, allowed, p, may, (k - 1) as nat);
    }
}

// Answers.

/// What is not known is answered by an error, and a request for the figures by
/// those of all parts together.
pub proof fn requests_are_answered_in_kind(parts: Seq<Part>, reply: Reply)
    ensures
        answers_request(parts, Request::Unknown, reply) ==> (reply matches Reply::Error(e) && e@
            == "unknown command"@),
        answers_request(parts, Request::Stats, reply) ==> (reply matches Reply::Stats(n, slots)
            && n == living_in(parts, parts.len()) && slots == slots_in(parts, parts.len())),
{
}

/// A search is answered by the paths that it found, no more than were asked for,
/// or by what was wrong with it.
pub proof fn searches_are_answered_with_paths(
    parts: Seq<Part>,
    limit: usize,
    opts: SearchOpts,
    pattern: String,
    nul: bool,
    reply: Reply,
) -> (replies: Seq<Result<Vec<Vec<u8>>, String>>)
    requires
        answers_request(parts, Request::Search { limit, opts, pattern, nul }, reply),
    ensures
        reply !is Stats,
        reply matches Reply::Paths(paths) ==> paths@.len() <= limit && whole_outcome(
            parts,
            pattern@,
            limit,
            opts,
            replies,
            Ok(paths),
        ),
        reply matches Reply::Error(e) ==> whole_outcome(
            parts,
            pattern@,
            limit,
            opts,
            replies,
            Err(e),
        ),
{
    let (replies, r) = choose|
        replies: Seq<Result<Vec<Vec<u8>>, String>>,
        r: Result<Vec<Vec<u8>>, String>,
    | #[trigger]
        whole_outcome(parts, pattern@, limit, opts, replies, r) && match r {
            Ok(paths) => reply == Reply::Paths(paths),
            Err(e) => reply == Reply::Error(e),
        };
    assert(whole_outcome(parts, pattern@, limit, opts, replies, r));
    searches_respect_the_limit(parts, pattern@, limit, opts, replies);
    if let Ok(paths) = r {
        assert(views(paths@).len() == paths@.len());
    }
    replies
}

/// The parts are asked in their order, each until enough is found; the first
/// fault ends the search, and is what is answered.
pub proof fn searches_ask_every_part(
    parts: Seq<Part>,
    pattern: Seq<char>,
    limit: usize,
    o: SearchOpts,
    replies: Seq<Result<Vec<Vec<u8>>, String>>,
    r: Result<Vec<Vec<u8>>, String>,
)
    requires
        whole_outcome(parts, pattern, limit, o, replies, r),
    ensures
        r is Ok ==> replies.len() == parts.len() || r->Ok_0@.len() >= limit,
        r is Err <==> replies.len() > 0 && replies.last() is Err,
        forall|j: int|
            0 <= j < replies.len() ==> search_outcome(
                parts[j].index@,
                pattern,
                limit - all_merged(replies.take(j)).len(),
                o,
                #[trigger] replies[j],
            ),
        limit > 0 && parts.len() > 0 ==> replies.len() > 0 || r->Ok_0@.len() >= limit,
{
    assert forall|j: int| 0 <= j < replies.len() implies search_outcome(
        parts[j].index@,
        pattern,
        limit - all_merged(replies.take(j)).len(),
        o,
        #[trigger] replies[j],
    ) by {
        assert(all_merged(replies.take(j)).len() < limit);
    }
}

/// How much one client can cost.
pub proof fn clients_are_bounded()
    ensures
        MAX_CLIENTS == 32,
        MAX_REQUEST == 64 * 1024,
{
}

} // verus!
