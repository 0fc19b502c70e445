//! What a search over every indexed folder finds.

use vstd::prelude::*;
use crate::bytes::views;
use crate::catalog::{all_merged, every_hit_is_reported, lemma_merged_len, Part};
use crate::laws::search_is_exact;
use crate::lookup::search_outcome;
use crate::options::SearchOpts;
use crate::protocol::whole_outcome;
use crate::search::{answers, first, paths_of};
use crate::tree::path;

verus! {

/// Entry `d` of part `j` is wanted, and `p` is its path.
pub open spec fn wanted_at(
    parts: Seq<Part>,
    pattern: Seq<char>,
    o: SearchOpts,
    j: int,
    d: u32,
    p: Seq<u8>,
) -> bool {
    let v = parts[j].index@;
    0 <= j < parts.len() && d < v.nodes.len() && v.wanted(pattern, o)(d as int) && path(
        v.nodes,
        d as int,
    ) == p
}

/// `p` is the path of an entry that is wanted, in some part.
pub open spec fn wanted_anywhere(
    parts: Seq<Part>,
    pattern: Seq<char>,
    o: SearchOpts,
    p: Seq<u8>,
) -> bool {
    exists|j: int, d: u32| #[trigger] wanted_at(parts, pattern, o, j, d, p)
}

/// How many entries the first `k` parts find.
pub open spec fn found_in(parts: Seq<Part>, pattern: Seq<char>, o: SearchOpts, k: nat) -> nat
    decreases k,
{
    if k == 0 {
        0
    } else {
        found_in(parts, pattern, o, (k - 1) as nat) + parts[k - 1].index@.found_ids(
            pattern,
            o,
        ).len()
    }
}

proof fn lemma_found_grows(
    parts: Seq<Part>,
    pattern: Seq<char>,
    o: SearchOpts,
    j: nat,
    k: nat,
)
    requires
        j < k,
    ensures
        found_in(parts, pattern, o, j) + parts[j as int].index@.found_ids(pattern, o).len()
            <= found_in(parts, pattern, o, k),
    decreases k,
{
    if j < k - 1 {
        lemma_found_grows(parts, pattern, o, j, (k - 1) as nat);
    }
}

/// No more is merged than was found.
proof fn lemma_merged_found(
    parts: Seq<Part>,
    pattern: Seq<char>,
    limit: usize,
    o: SearchOpts,
    replies: Seq<Result<Vec<Vec<u8>>, String>>,
    r: Result<Vec<Vec<u8>>, String>,
    j: nat,
)
    requires
        whole_outcome(parts, pattern, limit, o, replies, r),
        !o.regex,
        j <= replies.len(),
    ensures
        all_merged(replies.take(j as int)).len() <= found_in(parts, pattern, o, j),
    decreases j,
{
    if j > 0 {
        let m = j - 1;
        let now = replies.take(j as int);
        lemma_merged_found(parts, pattern, limit, o, replies, r, m as nat);
        assert(now.drop_last() =~= replies.take(m));
        assert(now.last() == replies[m]);
        let sofar = all_merged(replies.take(m)).len();
        assert(search_outcome(parts[m].index@, pattern, limit - sofar, o, replies[m]));
        match replies[m] {
            Ok(hits) => {
                lemma_merged_len(all_merged(replies.take(m)), views(hits@));
                assert(views(hits@).len() <= parts[m].index@.found_ids(pattern, o).len());
            },
            Err(_) => {},
        }
    }
}

/// A search over every folder returns only paths of entries that are wanted;
/// and, where no more are found than were asked for, all of them.
pub proof fn catalog_search_is_exact(
    parts: Seq<Part>,
    pattern: Seq<char>,
    limit: usize,
    o: SearchOpts,
    replies: Seq<Result<Vec<Vec<u8>>, String>>,
    out: Vec<Vec<u8>>,
    p: Seq<u8>,
)
    requires
        whole_outcome(parts, pattern, limit, o, replies, Ok(out)),
        !o.regex,
        pattern.len() > 0,
        forall|j: int| 0 <= j < parts.len() ==> (#[trigger] parts[j]).index@.searchable(),
    ensures
        views(out@).contains(p) ==> wanted_anywhere(parts, pattern, o, p),
        found_in(parts, pattern, o, parts.len()) <= limit && wanted_anywhere(parts, pattern, o, p)
            ==> views(out@).contains(p),
{
    let r = Ok::<Vec<Vec<u8>>, String>(out);
    every_hit_is_reported(replies, p);
    if views(out@).contains(p) {
        let j = choose|j: int|
            0 <= j < replies.len() && ((#[trigger] replies[j]) matches Ok(hits) && views(
                hits@,
            ).contains(p));
        let v = parts[j].index@;
        let ids = v.found_ids(pattern, o);
        let k = limit - all_merged(replies.take(j)).len();
        assert(search_outcome(v, pattern, k, o, replies[j]));
        assert(parts[j].index@.searchable());
        search_is_exact(v, pattern, o);
        let some = first(ids, k);
        let shown = answers(v.nodes, ids, k);
        let q = choose|q: int| 0 <= q < shown.len() && shown[q] == p;
        assert(ids[q] == some[q]);
        assert(ids.contains(ids[q]));
        assert(wanted_at(parts, pattern, o, j, ids[q], p));
    }
    if found_in(parts, pattern, o, parts.len()) <= limit && wanted_anywhere(parts, pattern, o, p) {
        let (j, d) = choose|j: int, d: u32| #[trigger] wanted_at(parts, pattern, o, j, d, p);
        let v = parts[j].index@;
        let ids = v.found_ids(pattern, o);
        assert(parts[j].index@.searchable());
        search_is_exact(v, pattern, o);
        assert(ids.contains(d));
        let q = choose|q: int| 0 <= q < ids.len() && ids[q] == d;
        lemma_found_grows(parts, pattern, o, j as nat, parts.len());
        if j < replies.len() {
            lemma_merged_found(parts, pattern, limit, o, replies, r, j as nat);
            let k = limit - all_merged(replies.take(j)).len();
            assert(search_outcome(v, pattern, k, o, replies[j]));
            assert(first(ids, k) == ids);
            assert(paths_of(v.nodes, ids)[q] == p);
            match replies[j] {
                Ok(hits) => {
                    assert(views(hits@)[q] == p);
                    assert(views(hits@).contains(p));
                },
                Err(_) => {},
            }
        } else {
            let n = replies.len();
            lemma_merged_found(parts, pattern, limit, o, replies, r, n);
            assert(replies.take(n as int) =~= replies);
            if n < j {
                lemma_found_grows(parts, pattern, o, n, j as nat);
            }
            assert(views(out@).len() == out@.len());
        }
    }
}

} // verus!
