//! How the answers of two searches relate.

use vstd::prelude::*;
use vstd::utf8::{encode_utf8, encode_utf8_valid_utf8};
use crate::anchored::{anchor_core, flagged, lemma_filter_one, reach, reached, walk, walk_kids};
use crate::bytes::{occurs, occurs_at, views};
use crate::fold::{folded, lemma_fold_occurs};
use crate::ids::{ids_where, lemma_ids_where, lemma_ids_where_agree};
use crate::index::IndexView;
use crate::laws::{lemma_needles, lemma_selection, search_is_exact};
use crate::lookup::{lossy_texts, needle_of, needles_of, search_outcome, slashed, text_outcome};
use crate::maintain::{components, lemma_distinct_len};
use crate::matcher::{compiled_outcome, regex_source, RegexRefusal};
use crate::options::{Kind, SearchOpts};
use crate::search::{all_occur, answers, first, kind_ok, paths_of};
use crate::terms::terms_of;
use crate::text::texts;
use crate::tree::{
    child_ids, child_of, dotted, has_parent, hidden, lemma_chain_trans, lemma_effective_path,
    on_chain, parents_first, path, Node, NO_PARENT,
};

verus! {

impl IndexView {
    /// What a search that succeeds finds, in order.
    pub open spec fn hits(self, pattern: Seq<char>, o: SearchOpts) -> Seq<u32> {
        if pattern.len() == 0 {
            seq![]
        } else if o.regex {
            self.selected(self.regex_match(pattern, o, o.in_path || slashed(pattern)))
        } else {
            self.found_ids(pattern, o)
        }
    }
}

/// A search that succeeds answers with the paths of the first hits, up to its
/// limit. It succeeds without regular expressions, and where there is nothing
/// to look for.
pub proof fn searches_answer_with_hits(
    v: IndexView,
    pattern: Seq<char>,
    limit: int,
    o: SearchOpts,
    r: Result<Vec<Vec<u8>>, String>,
)
    requires
        0 <= limit,
        search_outcome(v, pattern, limit, o, r),
    ensures
        r matches Ok(out) ==> views(out@) == answers(v.nodes, v.hits(pattern, o), limit),
        !o.regex || limit == 0 || pattern.len() == 0 ==> r is Ok,
{
    if pattern.len() == 0 || limit == 0 {
        let ids = first(v.hits(pattern, o), limit);
        assert(ids =~= Seq::<u32>::empty());
        assert(answers(v.nodes, v.hits(pattern, o), limit) =~= Seq::<Seq<u8>>::empty());
        assert(views(r->Ok_0@) =~= Seq::<Seq<u8>>::empty());
    }
}

/// The same of a search whose answer is text.
pub proof fn text_searches_answer_with_hits(
    v: IndexView,
    pattern: Seq<char>,
    limit: int,
    o: SearchOpts,
    r: Result<Vec<String>, String>,
)
    requires
        0 <= limit,
        text_outcome(v, pattern, limit, o, r),
    ensures
        r matches Ok(out) ==> texts(out@) == lossy_texts(
            answers(v.nodes, v.hits(pattern, o), limit),
        ),
        !o.regex || limit == 0 || pattern.len() == 0 ==> r is Ok,
{
    let raw = choose|raw: Result<Vec<Vec<u8>>, String>| #[trigger]
        search_outcome(v, pattern, limit, o, raw) && match raw {
            Ok(paths) => r matches Ok(out) && texts(out@) == lossy_texts(views(paths@)),
            Err(e) => r matches Err(f) && f@ == e@,
        };
    searches_answer_with_hits(v, pattern, limit, o, raw);
}

/// A search finds nothing twice.
pub proof fn hits_are_distinct(v: IndexView, pattern: Seq<char>, o: SearchOpts)
    requires
        v.searchable(),
    ensures
        v.hits(pattern, o).no_duplicates(),
        forall|d: u32| #[trigger] v.hits(pattern, o).contains(d) ==> d < v.nodes.len(),
{
    search_is_exact(v, pattern, o);
    lemma_selection(v, v.regex_match(pattern, o, o.in_path || slashed(pattern)));
}

/// Where the limit is no smaller than the arena, every hit is answered.
pub proof fn large_limits_cut_nothing(
    v: IndexView,
    pattern: Seq<char>,
    o: SearchOpts,
    limit: int,
)
    requires
        v.searchable(),
        v.nodes.len() <= limit,
    ensures
        answers(v.nodes, v.hits(pattern, o), limit) == paths_of(v.nodes, v.hits(pattern, o)),
{
    let ids = v.hits(pattern, o);
    hits_are_distinct(v, pattern, o);
    assert forall|i: int| 0 <= i < ids.len() implies (#[trigger] ids[i]) < v.nodes.len() by {
        assert(ids.contains(ids[i]));
    }
    lemma_distinct_len(ids, v.nodes.len() as int);
}

// The limit.

/// The first `limit` elements, or all if there are no more.
pub open spec fn up_to<T>(s: Seq<T>, limit: int) -> Seq<T> {
    if s.len() <= limit {
        s
    } else {
        s.take(limit)
    }
}

/// A smaller limit only cuts the answer off: what it gives is the beginning of
/// what the larger one gives, at most so many paths, and none for a limit of
/// nothing. Only a regular expression can make the search with the smaller
/// limit fail where the other did not.
pub proof fn smaller_limits_cut_answers(
    v: IndexView,
    pattern: Seq<char>,
    o: SearchOpts,
    low: int,
    high: int,
    few: Result<Vec<Vec<u8>>, String>,
    many: Result<Vec<Vec<u8>>, String>,
)
    requires
        0 <= low <= high,
        search_outcome(v, pattern, low, o, few),
        search_outcome(v, pattern, high, o, many),
        many is Ok,
    ensures
        few matches Ok(out) ==> views(out@) == up_to(views(many->Ok_0@), low) && out@.len() <= low,
        !o.regex || low == 0 || pattern.len() == 0 ==> few is Ok,
{
    searches_answer_with_hits(v, pattern, low, o, few);
    searches_answer_with_hits(v, pattern, high, o, many);
    let ids = v.hits(pattern, o);
    if few is Ok {
        let out = few->Ok_0;
        assert(views(out@).len() == out@.len());
        assert(answers(v.nodes, ids, low) =~= up_to(answers(v.nodes, ids, high), low));
    }
}

/// The same of searches whose answer is text.
pub proof fn smaller_limits_cut_text_answers(
    v: IndexView,
    pattern: Seq<char>,
    o: SearchOpts,
    low: int,
    high: int,
    few: Result<Vec<String>, String>,
    many: Result<Vec<String>, String>,
)
    requires
        0 <= low <= high,
        text_outcome(v, pattern, low, o, few),
        text_outcome(v, pattern, high, o, many),
        many is Ok,
    ensures
        few matches Ok(out) ==> texts(out@) == up_to(texts(many->Ok_0@), low) && out@.len() <= low,
        !o.regex || low == 0 || pattern.len() == 0 ==> few is Ok,
{
    text_searches_answer_with_hits(v, pattern, low, o, few);
    text_searches_answer_with_hits(v, pattern, high, o, many);
    let ids = v.hits(pattern, o);
    if few is Ok {
        let out = few->Ok_0;
        assert(texts(out@).len() == out@.len());
        assert(lossy_texts(answers(v.nodes, ids, low)) =~= up_to(
            lossy_texts(answers(v.nodes, ids, high)),
            low,
        ));
    }
}

// One compilation.

/// Searches that start from one outcome of compiling succeed or fail together,
/// with one report: neither the limit nor the options nor the index decides.
pub proof fn compiled_searches_share_their_fate(
    v: IndexView,
    w: IndexView,
    compiled: Result<regex::bytes::Regex, RegexRefusal>,
    low: int,
    high: int,
    a: SearchOpts,
    b: SearchOpts,
    in_path: (bool, bool),
    r: Result<Vec<Vec<u8>>, String>,
    q: Result<Vec<Vec<u8>>, String>,
)
    requires
        compiled_outcome(v, compiled, low, a, in_path.0, r),
        compiled_outcome(w, compiled, high, b, in_path.1, q),
    ensures
        r is Ok <==> compiled is Ok,
        q is Ok <==> compiled is Ok,
        compiled is Err ==> r->Err_0@ == q->Err_0@,
{
}

/// A search with a compiled expression always succeeds, and answers with the
/// paths of the first hits, up to its limit. So whatever holds of the hits of
/// two searches holds of their answers, for one compilation of the pattern.
pub proof fn compiled_searches_answer_with_hits(
    v: IndexView,
    pattern: Seq<char>,
    re: regex::bytes::Regex,
    limit: int,
    o: SearchOpts,
    r: Result<Vec<Vec<u8>>, String>,
)
    requires
        o.regex,
        pattern.len() > 0,
        regex_source(re) == (pattern, !o.match_case),
        compiled_outcome(
            v,
            Ok::<_, RegexRefusal>(re),
            limit,
            o,
            o.in_path || slashed(pattern),
            r,
        ),
    ensures
        r matches Ok(out) && views(out@) == answers(v.nodes, v.hits(pattern, o), limit),
{
}

/// With one compiled expression, a smaller limit gives the beginning of what a
/// larger one gives.
pub proof fn smaller_limits_cut_compiled_answers(
    v: IndexView,
    re: regex::bytes::Regex,
    o: SearchOpts,
    in_path: bool,
    low: int,
    high: int,
    few: Result<Vec<Vec<u8>>, String>,
    many: Result<Vec<Vec<u8>>, String>,
)
    requires
        0 <= low <= high,
        compiled_outcome(v, Ok::<_, RegexRefusal>(re), low, o, in_path, few),
        compiled_outcome(v, Ok::<_, RegexRefusal>(re), high, o, in_path, many),
    ensures
        few is Ok,
        many is Ok,
        views(few->Ok_0@) == up_to(views(many->Ok_0@), low),
        few->Ok_0@.len() <= low,
{
    let ids = v.selected(v.regex_match(regex_source(re).0, o, in_path));
    assert(views(few->Ok_0@).len() == few->Ok_0@.len());
    assert(answers(v.nodes, ids, low) =~= up_to(answers(v.nodes, ids, high), low));
}

// Files and folders.

/// Filtering what was selected selects what both want.
proof fn lemma_selected_filter(
    f: spec_fn(int) -> bool,
    g: spec_fn(int) -> bool,
    p: spec_fn(u32) -> bool,
    n: nat,
)
    requires
        n <= 0xffff_ffff,
        forall|i: int| 0 <= i < n ==> #[trigger] g(i) == (f(i) && p(i as u32)),
    ensures
        ids_where(g, n) == ids_where(f, n).filter(p),
    decreases n,
{
    if n == 0 {
        assert(Seq::<u32>::empty().filter(p) =~= Seq::<u32>::empty()) by {
            reveal(Seq::filter);
        }
    } else {
        let m = (n - 1) as nat;
        lemma_selected_filter(f, g, p, m);
        assert(g(n - 1) == (f(n - 1) && p((n - 1) as u32)));
        if f(n - 1) {
            ids_where(f, m).lemma_filter_push((n - 1) as u32, p);
        }
    }
}

/// Two filters make one.
proof fn lemma_filter_twice(
    s: Seq<u32>,
    p: spec_fn(u32) -> bool,
    q: spec_fn(u32) -> bool,
    both: spec_fn(u32) -> bool,
)
    requires
        forall|x: u32| #[trigger] both(x) == (p(x) && q(x)),
    ensures
        s.filter(both) == s.filter(p).filter(q),
    decreases s.len(),
{
    if s.len() == 0 {
        reveal(Seq::filter);
    } else {
        let head = s.drop_last();
        let x = s.last();
        lemma_filter_twice(head, p, q, both);
        assert(s =~= head.push(x));
        head.lemma_filter_push(x, both);
        head.lemma_filter_push(x, p);
        assert(both(x) == (p(x) && q(x)));
        if p(x) {
            head.filter(p).lemma_filter_push(x, q);
        }
    }
}

/// Selects the entries of a kind.
pub open spec fn of_kind(nodes: Seq<Node>, kind: Kind) -> spec_fn(u32) -> bool {
    |d: u32| kind_ok(nodes[d as int], kind)
}

proof fn lemma_shown_kind(
    v: IndexView,
    anchors: Seq<(u32, bool)>,
    j: int,
    seen: Set<u32>,
    o: SearchOpts,
    kind: Kind,
    verify: Seq<Seq<u8>>,
)
    ensures
        v.shown_from(anchors, j, seen, SearchOpts { kind, ..o }, verify) == v.shown_from(
            anchors,
            j,
            seen,
            SearchOpts { kind: Kind::All, ..o },
            verify,
        ).filter(of_kind(v.nodes, kind)),
    decreases anchors.len() - j,
{
    let some = SearchOpts { kind, ..o };
    let all = SearchOpts { kind: Kind::All, ..o };
    let p = of_kind(v.nodes, kind);
    if j < 0 || j >= anchors.len() {
        reveal(Seq::filter);
    } else {
        let (a, with_self) = anchors[j];
        if seen.contains(a) || (o.hide_hidden && hidden(v.nodes, v.root, a as int)) {
            lemma_shown_kind(v, anchors, j + 1, seen, o, kind, verify);
        } else {
            let more = seen.union(reached(v.nodes, o.hide_hidden, a));
            lemma_shown_kind(v, anchors, j + 1, more, o, kind, verify);
            let way = walk(v.nodes, o.hide_hidden, a, a);
            let here = v.shows(a, with_self, all, verify);
            lemma_filter_twice(way, here, p, v.shows(a, with_self, some, verify));
            Seq::filter_distributes_over_add(
                way.filter(here),
                v.shown_from(anchors, j + 1, more, all, verify),
                p,
            );
        }
    }
}

/// A search for one kind finds what the search for all finds of that kind, in
/// the same order.
pub proof fn kinds_filter_hits(v: IndexView, pattern: Seq<char>, o: SearchOpts, kind: Kind)
    requires
        parents_first(v.nodes),
    ensures
        v.hits(pattern, SearchOpts { kind, ..o }) == v.hits(
            pattern,
            SearchOpts { kind: Kind::All, ..o },
        ).filter(of_kind(v.nodes, kind)),
{
    let some = SearchOpts { kind, ..o };
    let all = SearchOpts { kind: Kind::All, ..o };
    let p = of_kind(v.nodes, kind);
    let n = v.nodes.len();
    let terms = terms_of(pattern);
    let needles = needles_of(terms, o.match_case);
    let in_path = o.in_path || slashed(pattern);
    if pattern.len() == 0 {
        reveal(Seq::filter);
    } else if o.regex {
        lemma_selected_filter(
            v.regex_match(pattern, all, in_path),
            v.regex_match(pattern, some, in_path),
            p,
            n,
        );
    } else if terms.len() == 0 {
        reveal(Seq::filter);
    } else if terms.len() == 1 {
        let needle = needle_of(terms[0], o.match_case);
        if o.in_path || slashed(terms[0]) {
            match v.anchors(needle, o.match_case) {
                Some((ids, strict)) => {
                    lemma_shown_kind(
                        v,
                        flagged(ids, !strict),
                        0,
                        Set::empty(),
                        o,
                        kind,
                        seq![],
                    );
                },
                None => {
                    lemma_selected_filter(
                        v.path_match(needle, all),
                        v.path_match(needle, some),
                        p,
                        n,
                    );
                },
            }
        } else {
            lemma_selected_filter(v.name_match(needle, all), v.name_match(needle, some), p, n);
        }
    } else {
        lemma_selected_filter(v.terms_match(needles, all), v.terms_match(needles, some), p, n);
        lemma_shown_kind(
            v,
            v.multi_anchors(needles, o.match_case),
            0,
            Set::empty(),
            o,
            kind,
            v.checked_terms(needles, o.match_case, needles.len()),
        );
    }
}

/// A filter and its opposite share the elements out.
proof fn lemma_filter_parts(s: Seq<u32>, p: spec_fn(u32) -> bool, q: spec_fn(u32) -> bool)
    requires
        forall|x: u32| #[trigger] q(x) == !p(x),
    ensures
        (s.filter(p) + s.filter(q)).to_multiset() == s.to_multiset(),
        s.filter(p).len() + s.filter(q).len() == s.len(),
    decreases s.len(),
{
    broadcast use vstd::seq_lib::group_to_multiset_ensures;

    let a = s.filter(p);
    let b = s.filter(q);
    vstd::seq_lib::lemma_multiset_commutative(a, b);
    if s.len() == 0 {
        reveal(Seq::filter);
        assert(a + b =~= s);
    } else {
        let head = s.drop_last();
        let x = s.last();
        lemma_filter_parts(head, p, q);
        vstd::seq_lib::lemma_multiset_commutative(head.filter(p), head.filter(q));
        assert(s =~= head.push(x));
        assert(q(x) == !p(x));
        head.lemma_filter_push(x, p);
        head.lemma_filter_push(x, q);
        if p(x) {
            assert(a == head.filter(p).push(x));
        } else {
            assert(b == head.filter(q).push(x));
        }
        assert((a + b).to_multiset() =~= s.to_multiset());
    }
}

/// What a search finds of files and what it finds of folders together are what
/// it finds of everything: the one holds what is no folder, the other what is,
/// and where a search finds nothing twice, neither do the two.
pub proof fn files_and_folders_make_all(v: IndexView, pattern: Seq<char>, o: SearchOpts)
    requires
        parents_first(v.nodes),
    ensures
        ({
            let all = v.hits(pattern, SearchOpts { kind: Kind::All, ..o });
            let files = v.hits(pattern, SearchOpts { kind: Kind::Files, ..o });
            let folders = v.hits(pattern, SearchOpts { kind: Kind::Folders, ..o });
            &&& (files + folders).to_multiset() == all.to_multiset()
            &&& v.searchable() ==> (files + folders).no_duplicates()
            &&& forall|d: u32| #[trigger]
                files.contains(d) <==> all.contains(d) && !v.nodes[d as int].is_dir
            &&& forall|d: u32| #[trigger]
                folders.contains(d) <==> all.contains(d) && v.nodes[d as int].is_dir
        }),
{
    let all = v.hits(pattern, SearchOpts { kind: Kind::All, ..o });
    let files = v.hits(pattern, SearchOpts { kind: Kind::Files, ..o });
    let folders = v.hits(pattern, SearchOpts { kind: Kind::Folders, ..o });
    let p = of_kind(v.nodes, Kind::Files);
    let q = of_kind(v.nodes, Kind::Folders);
    kinds_filter_hits(v, pattern, o, Kind::Files);
    kinds_filter_hits(v, pattern, o, Kind::Folders);
    lemma_filter_parts(all, p, q);
    lemma_filter_holds(all, p);
    lemma_filter_holds(all, q);
    if v.searchable() {
        hits_are_distinct(v, pattern, SearchOpts { kind: Kind::Files, ..o });
        hits_are_distinct(v, pattern, SearchOpts { kind: Kind::Folders, ..o });
        let both = files + folders;
        assert forall|i: int, j: int|
            0 <= i < both.len() && 0 <= j < both.len() && i != j implies both[i] != both[j] by {
            if i < files.len() {
                assert(files.contains(both[i]));
            } else {
                assert(both[i] == folders[i - files.len()]);
                assert(folders.contains(both[i]));
            }
            if j < files.len() {
                assert(files.contains(both[j]));
            } else {
                assert(both[j] == folders[j - files.len()]);
                assert(folders.contains(both[j]));
            }
        }
    }
}

/// What is left after filtering.
proof fn lemma_filter_holds(s: Seq<u32>, p: spec_fn(u32) -> bool)
    ensures
        forall|x: u32| #[trigger] s.filter(p).contains(x) <==> s.contains(x) && p(x),
{
    broadcast use vstd::seq_lib::group_filter_ensures;

    assert forall|x: u32| #[trigger] s.filter(p).contains(x) <==> s.contains(x) && p(x) by {
        if s.filter(p).contains(x) {
            s.lemma_filter_contains_rev(p, x);
            let i = choose|i: int| 0 <= i < s.filter(p).len() && s.filter(p)[i] == x;
            assert(p(s.filter(p)[i]));
        }
        if s.contains(x) && p(x) {
            let i = choose|i: int| 0 <= i < s.len() && s[i] == x;
            assert(s.filter(p).contains(s[i]));
        }
    }
}

// Hidden entries.

/// Selects what is not hidden.
pub open spec fn unhidden(v: IndexView) -> spec_fn(u32) -> bool {
    |d: u32| !hidden(v.nodes, v.root, d as int)
}

/// Nothing lies above the root.
pub open spec fn root_on_top(v: IndexView) -> bool {
    v.root < v.nodes.len() ==> v.nodes[v.root as int].parent == NO_PARENT
}

/// What lies below something hidden is hidden.
proof fn lemma_hidden_below(v: IndexView, a: int, d: int)
    requires
        root_on_top(v),
        on_chain(v.nodes, a, d),
        hidden(v.nodes, v.root, a),
    ensures
        hidden(v.nodes, v.root, d),
    decreases d,
{
    if a != d {
        lemma_hidden_below(v, a, v.nodes[d].parent as int);
    }
}

/// The walk down from `cur` stays below it.
proof fn lemma_walk_below(nodes: Seq<Node>, hide: bool, a: u32, cur: u32)
    requires
        nodes.len() <= NO_PARENT,
    ensures
        forall|i: int|
            0 <= i < walk(nodes, hide, a, cur).len() ==> on_chain(
                nodes,
                cur as int,
                #[trigger] walk(nodes, hide, a, cur)[i] as int,
            ),
    decreases nodes.len() - cur, child_ids(nodes, cur).len() + 1,
{
    if !(cur >= nodes.len() || (hide && cur != a && dotted(nodes[cur as int].name))) {
        lemma_walk_kids_below(nodes, hide, a, cur, 0);
        let rest = walk_kids(nodes, hide, a, cur, 0);
        let s = walk(nodes, hide, a, cur);
        assert(s == seq![cur] + rest);
        assert forall|i: int| 0 <= i < s.len() implies on_chain(
            nodes,
            cur as int,
            #[trigger] s[i] as int,
        ) by {
            if i > 0 {
                assert(s[i] == rest[i - 1]);
            }
        }
    }
}

proof fn lemma_walk_kids_below(nodes: Seq<Node>, hide: bool, a: u32, cur: u32, j: nat)
    requires
        nodes.len() <= NO_PARENT,
    ensures
        forall|i: int|
            0 <= i < walk_kids(nodes, hide, a, cur, j).len() ==> on_chain(
                nodes,
                cur as int,
                #[trigger] walk_kids(nodes, hide, a, cur, j)[i] as int,
            ),
    decreases nodes.len() - cur, child_ids(nodes, cur).len() - j,
{
    let kids = child_ids(nodes, cur);
    if !(cur >= nodes.len() || j >= kids.len()) {
        let k = kids[j as int];
        lemma_walk_kids_below(nodes, hide, a, cur, j + 1);
        lemma_ids_where(child_of(nodes, cur), nodes.len());
        let one = if cur < k < nodes.len() {
            walk(nodes, hide, a, k)
        } else {
            seq![]
        };
        let rest = walk_kids(nodes, hide, a, cur, j + 1);
        let s = walk_kids(nodes, hide, a, cur, j);
        assert(s == one + rest);
        if cur < k < nodes.len() {
            lemma_walk_below(nodes, hide, a, k);
            assert(child_of(nodes, cur)(kids[j as int] as int));
        }
        assert forall|i: int| 0 <= i < s.len() implies on_chain(
            nodes,
            cur as int,
            #[trigger] s[i] as int,
        ) by {
            if i < one.len() {
                assert(s[i] == one[i]);
                assert(on_chain(nodes, cur as int, cur as int));
                assert(on_chain(nodes, cur as int, k as int));
                lemma_chain_trans(nodes, cur as int, k as int, s[i] as int);
            } else {
                assert(s[i] == rest[i - one.len()]);
            }
        }
    }
}

/// A walk below something hidden comes by hidden entries alone.
proof fn lemma_walk_all_hidden(v: IndexView, a: u32, cur: u32)
    requires
        parents_first(v.nodes),
        root_on_top(v),
        cur < v.nodes.len(),
        hidden(v.nodes, v.root, cur as int),
    ensures
        walk(v.nodes, false, a, cur).filter(unhidden(v)) == Seq::<u32>::empty(),
{
    let s = walk(v.nodes, false, a, cur);
    let p = unhidden(v);
    lemma_walk_below(v.nodes, false, a, cur);
    lemma_filter_holds(s, p);
    let left = s.filter(p);
    if left.len() > 0 {
        assert(left.contains(left[0]));
        assert(s.contains(left[0]) && p(left[0]));
        let i = choose|i: int| 0 <= i < s.len() && s[i] == left[0];
        lemma_hidden_below(v, cur as int, s[i] as int);
    }
    assert(left =~= Seq::<u32>::empty());
}

/// The walk that leaves out what is hidden is the walk past everything, without
/// what is hidden.
proof fn lemma_walk_hides(v: IndexView, a: u32, cur: u32)
    requires
        parents_first(v.nodes),
        root_on_top(v),
        a <= cur < v.nodes.len(),
        !hidden(v.nodes, v.root, cur as int),
        cur == a || has_parent(v.nodes, cur as int),
    ensures
        walk(v.nodes, true, a, cur) == walk(v.nodes, false, a, cur).filter(unhidden(v)),
    decreases v.nodes.len() - cur, child_ids(v.nodes, cur).len() + 1,
{
    let p = unhidden(v);
    lemma_walk_kids_hide(v, a, cur, 0);
    let rest = walk_kids(v.nodes, false, a, cur, 0);
    assert(cur != a ==> !dotted(v.nodes[cur as int].name)) by {
        if cur != a {
            assert(cur != v.root);
        }
    }
    Seq::filter_distributes_over_add(seq![cur], rest, p);
    assert(seq![cur].filter(p) == seq![cur]) by {
        lemma_filter_one(cur, p);
    }
}

#[verifier::spinoff_prover]
proof fn lemma_walk_kids_hide(v: IndexView, a: u32, cur: u32, j: nat)
    requires
        parents_first(v.nodes),
        root_on_top(v),
        a <= cur < v.nodes.len(),
        !hidden(v.nodes, v.root, cur as int),
    ensures
        walk_kids(v.nodes, true, a, cur, j) == walk_kids(v.nodes, false, a, cur, j).filter(
            unhidden(v),
        ),
    decreases v.nodes.len() - cur, child_ids(v.nodes, cur).len() - j,
{
    let nodes = v.nodes;
    let p = unhidden(v);
    let kids = child_ids(nodes, cur);
    if j >= kids.len() {
        assert(Seq::<u32>::empty().filter(p) == Seq::<u32>::empty()) by {
            reveal(Seq::filter);
        }
    } else {
        let k = kids[j as int];
        assert(nodes[k as int].parent == cur && cur < k < nodes.len()) by {
            lemma_ids_where(child_of(nodes, cur), nodes.len());
            assert(child_of(nodes, cur)(kids[j as int] as int));
        }
        lemma_kid_hides(v, a, cur, k);
        lemma_walk_kids_hide(v, a, cur, j + 1);
        let shown = walk(nodes, false, a, k);
        let rest = walk_kids(nodes, false, a, cur, j + 1);
        assert(walk_kids(nodes, false, a, cur, j) == shown + rest);
        assert(walk_kids(nodes, true, a, cur, j) == walk(nodes, true, a, k) + walk_kids(
            nodes,
            true,
            a,
            cur,
            j + 1,
        ));
        Seq::filter_distributes_over_add(shown, rest, p);
    }
}

/// The same of one child.
#[verifier::spinoff_prover]
proof fn lemma_kid_hides(v: IndexView, a: u32, cur: u32, k: u32)
    requires
        parents_first(v.nodes),
        root_on_top(v),
        a <= cur < k < v.nodes.len(),
        !hidden(v.nodes, v.root, cur as int),
        v.nodes[k as int].parent == cur,
    ensures
        walk(v.nodes, true, a, k) == walk(v.nodes, false, a, k).filter(unhidden(v)),
    decreases v.nodes.len() - k, child_ids(v.nodes, k).len() + 2,
{
    if hidden(v.nodes, v.root, k as int) {
        lemma_walk_all_hidden(v, a, k);
        assert(dotted(v.nodes[k as int].name));
        assert(walk(v.nodes, true, a, k) =~= Seq::<u32>::empty());
    } else {
        lemma_walk_hides(v, a, k);
    }
}

/// What is not hidden is come by with or without the hidden entries.
proof fn lemma_reach_unhidden(v: IndexView, a: int, d: int)
    requires
        root_on_top(v),
        0 <= d < v.nodes.len(),
        !hidden(v.nodes, v.root, d),
    ensures
        reach(v.nodes, true, a, d) == reach(v.nodes, false, a, d),
    decreases d,
{
    if a != d && has_parent(v.nodes, d) {
        assert(d != v.root);
        let p = v.nodes[d].parent as int;
        lemma_reach_unhidden(v, a, p);
        if p != a && reach(v.nodes, false, a, p) {
            assert(has_parent(v.nodes, p));
            assert(p != v.root);
        }
    }
}

/// What lies on the walk lies below its start.
proof fn lemma_reach_below(nodes: Seq<Node>, hide: bool, a: int, d: int)
    requires
        reach(nodes, hide, a, d),
    ensures
        on_chain(nodes, a, d),
    decreases d,
{
    if a != d {
        lemma_reach_below(nodes, hide, a, nodes[d].parent as int);
    }
}

/// Two records of what was come by agree on what is not hidden.
spec fn agree_unhidden(v: IndexView, a: Set<u32>, b: Set<u32>) -> bool {
    forall|x: u32|
        x < v.nodes.len() && !hidden(v.nodes, v.root, x as int) ==> (#[trigger] a.contains(x)
            <==> b.contains(x))
}

proof fn lemma_shown_hides(
    v: IndexView,
    anchors: Seq<(u32, bool)>,
    j: int,
    seen: Set<u32>,
    met: Set<u32>,
    o: SearchOpts,
    verify: Seq<Seq<u8>>,
)
    requires
        parents_first(v.nodes),
        root_on_top(v),
        agree_unhidden(v, seen, met),
        forall|i: int| 0 <= i < anchors.len() ==> (#[trigger] anchors[i]).0 < v.nodes.len(),
    ensures
        v.shown_from(anchors, j, seen, SearchOpts { hide_hidden: true, ..o }, verify)
            == v.shown_from(
            anchors,
            j,
            met,
            SearchOpts { hide_hidden: false, ..o },
            verify,
        ).filter(unhidden(v)),
    decreases anchors.len() - j,
{
    let nodes = v.nodes;
    let hide = SearchOpts { hide_hidden: true, ..o };
    let show = SearchOpts { hide_hidden: false, ..o };
    let p = unhidden(v);
    if j < 0 || j >= anchors.len() {
        reveal(Seq::filter);
    } else {
        let (a, with_self) = anchors[j];
        assert(anchors[j].0 < nodes.len());
        let way = walk(nodes, false, a, a);
        let here = v.shows(a, with_self, show, verify);
        let after = met.union(reached(nodes, false, a));
        if !met.contains(a) {
            Seq::filter_distributes_over_add(
                way.filter(here),
                v.shown_from(anchors, j + 1, after, show, verify),
                p,
            );
            lemma_filters_swap(way, here, p);
        }
        if hidden(nodes, v.root, a as int) {
            if met.contains(a) {
                lemma_shown_hides(v, anchors, j + 1, seen, met, o, verify);
            } else {
                assert(agree_unhidden(v, seen, after)) by {
                    assert forall|x: u32|
                        x < nodes.len() && !hidden(nodes, v.root, x as int) implies (
                    #[trigger] seen.contains(x) <==> after.contains(x)) by {
                        if reach(nodes, false, a as int, x as int) {
                            lemma_reach_below(nodes, false, a as int, x as int);
                            lemma_hidden_below(v, a as int, x as int);
                        }
                    }
                }
                lemma_shown_hides(v, anchors, j + 1, seen, after, o, verify);
                lemma_walk_all_hidden(v, a, a);
                assert(Seq::<u32>::empty().filter(here) =~= Seq::<u32>::empty()) by {
                    reveal(Seq::filter);
                }
                let rest = v.shown_from(anchors, j + 1, after, show, verify).filter(p);
                assert(Seq::<u32>::empty() + rest =~= rest);
            }
        } else if met.contains(a) {
            lemma_shown_hides(v, anchors, j + 1, seen, met, o, verify);
        } else {
            let next = seen.union(reached(nodes, true, a));
            assert(agree_unhidden(v, next, after)) by {
                assert forall|x: u32| x < nodes.len() && !hidden(nodes, v.root, x as int) implies (
                #[trigger] next.contains(x) <==> after.contains(x)) by {
                    lemma_reach_unhidden(v, a as int, x as int);
                    assert(seen.contains(x) <==> met.contains(x));
                }
            }
            lemma_shown_hides(v, anchors, j + 1, next, after, o, verify);
            lemma_walk_hides(v, a, a);
            let less = walk(nodes, true, a, a);
            lemma_filter_agree(less, v.shows(a, with_self, hide, verify), here);
        }
    }
}

/// Filters may change places.
proof fn lemma_filters_swap(s: Seq<u32>, p: spec_fn(u32) -> bool, q: spec_fn(u32) -> bool)
    ensures
        s.filter(p).filter(q) == s.filter(q).filter(p),
{
    let both = |x: u32| p(x) && q(x);
    lemma_filter_twice(s, p, q, both);
    lemma_filter_twice(s, q, p, both);
}

/// Filters that agree leave the same.
proof fn lemma_filter_agree(s: Seq<u32>, p: spec_fn(u32) -> bool, q: spec_fn(u32) -> bool)
    requires
        forall|x: u32| #[trigger] p(x) == q(x),
    ensures
        s.filter(p) == s.filter(q),
    decreases s.len(),
{
    if s.len() == 0 {
        reveal(Seq::filter);
    } else {
        let head = s.drop_last();
        let x = s.last();
        lemma_filter_agree(head, p, q);
        assert(s =~= head.push(x));
        head.lemma_filter_push(x, p);
        head.lemma_filter_push(x, q);
        assert(p(x) == q(x));
    }
}

/// Hiding hidden entries takes away just those, and keeps the order: in names,
/// in paths, for several words and for regular expressions. The root's own name
/// hides nothing.
pub proof fn hiding_takes_away_the_hidden(v: IndexView, pattern: Seq<char>, o: SearchOpts)
    requires
        parents_first(v.nodes),
        root_on_top(v),
        v.root == NO_PARENT || v.root < v.nodes.len(),
    ensures
        v.hits(pattern, SearchOpts { hide_hidden: true, ..o }) == v.hits(
            pattern,
            SearchOpts { hide_hidden: false, ..o },
        ).filter(unhidden(v)),
{
    let hide = SearchOpts { hide_hidden: true, ..o };
    let show = SearchOpts { hide_hidden: false, ..o };
    let p = unhidden(v);
    let n = v.nodes.len();
    let terms = terms_of(pattern);
    let needles = needles_of(terms, o.match_case);
    let in_path = o.in_path || slashed(pattern);
    if pattern.len() == 0 {
        reveal(Seq::filter);
    } else if o.regex {
        lemma_selected_filter(
            v.regex_match(pattern, show, in_path),
            v.regex_match(pattern, hide, in_path),
            p,
            n,
        );
    } else if terms.len() == 0 {
        reveal(Seq::filter);
    } else if terms.len() == 1 {
        let needle = needle_of(terms[0], o.match_case);
        if o.in_path || slashed(terms[0]) {
            match v.anchors(needle, o.match_case) {
                Some((ids, strict)) => {
                    let list = flagged(ids, !strict);
                    lemma_anchors_exist(v, needle, o.match_case);
                    assert forall|i: int| 0 <= i < list.len() implies (#[trigger] list[i]).0
                        < n by {
                        assert(ids[i] < n);
                    }
                    lemma_shown_hides(v, list, 0, Set::empty(), Set::empty(), o, seq![]);
                },
                None => {
                    lemma_selected_filter(
                        v.path_match(needle, show),
                        v.path_match(needle, hide),
                        p,
                        n,
                    );
                },
            }
        } else {
            lemma_selected_filter(v.name_match(needle, show), v.name_match(needle, hide), p, n);
        }
    } else {
        lemma_selected_filter(v.terms_match(needles, show), v.terms_match(needles, hide), p, n);
        let list = v.multi_anchors(needles, o.match_case);
        let keep = v.multi_anchor(needles, o.match_case);
        lemma_ids_where(keep, n);
        assert forall|i: int| 0 <= i < list.len() implies (#[trigger] list[i]).0 < n by {
            assert(v.selected(keep)[i] < n);
        }
        lemma_shown_hides(
            v,
            list,
            0,
            Set::empty(),
            Set::empty(),
            o,
            v.checked_terms(needles, o.match_case, needles.len()),
        );
    }
}

/// The entries at which a needle ends are entries.
proof fn lemma_anchors_exist(v: IndexView, needle: Seq<u8>, match_case: bool)
    requires
        parents_first(v.nodes),
        v.root == NO_PARENT || v.root < v.nodes.len(),
    ensures
        v.anchors(needle, match_case) matches Some((ids, _)) ==> forall|i: int|
            0 <= i < ids.len() ==> (#[trigger] ids[i]) < v.nodes.len(),
{
    if let Some((core, inside)) = anchor_core(needle) {
        lemma_ids_where(v.ends_here(needle, core, inside, match_case), v.nodes.len());
    }
}

// Case and paths.

/// Matching case only narrows a search: whatever it finds is found without
/// regard to case as well.
pub proof fn matching_case_only_narrows(v: IndexView, pattern: Seq<char>, o: SearchOpts, d: u32)
    requires
        v.searchable(),
        !o.regex,
        v.hits(pattern, SearchOpts { match_case: true, ..o }).contains(d),
    ensures
        v.hits(pattern, SearchOpts { match_case: false, ..o }).contains(d),
{
    let strict = SearchOpts { match_case: true, ..o };
    let loose = SearchOpts { match_case: false, ..o };
    let terms = terms_of(pattern);
    let given = needles_of(terms, true);
    let lower = needles_of(terms, false);
    search_is_exact(v, pattern, strict);
    search_is_exact(v, pattern, loose);
    assert forall|t: int, hay: Seq<u8>|
        0 <= t < terms.len() && #[trigger] occurs(hay, given[t]) implies occurs(
        folded(hay),
        lower[t],
    ) by {
        encode_utf8_valid_utf8(terms[t]);
        lemma_fold_occurs(hay, encode_utf8(terms[t]));
    }
    let name = v.nodes[d as int].name;
    let whole = path(v.nodes, d as int);
    if terms.len() == 1 && occurs(name, given[0]) {
        assert(occurs(folded(name), lower[0]));
    }
    if all_occur(whole, given) {
        assert forall|t: int| 0 <= t < lower.len() implies occurs(
            folded(whole),
            #[trigger] lower[t],
        ) by {
            assert(occurs(whole, given[t]));
        }
    }
    assert(v.wanted(pattern, strict)(d as int));
    assert(v.wanted(pattern, loose)(d as int));
}

/// What the compared name holds, the compared path holds.
proof fn lemma_name_in_path(v: IndexView, d: int, match_case: bool, needle: Seq<u8>)
    requires
        0 <= d < v.nodes.len(),
        needle.len() > 0,
        occurs(v.compared_name(d, match_case), needle),
    ensures
        occurs(v.compared_path(d, match_case), needle),
{
    let name = v.compared_name(d, match_case);
    let whole = v.compared_path(d, match_case);
    lemma_effective_path(v.nodes, d, match_case);
    let i = choose|i: int| occurs_at(name, needle, i);
    assert(v.nodes[d].name.len() > 0) by {
        if v.nodes[d].name.len() == 0 {
            assert(v.nodes[d].name =~= Seq::<u8>::empty());
            assert(folded(Seq::<u8>::empty()) =~= Seq::<u8>::empty());
        }
    }
    let at = whole.len() - name.len();
    assert(whole.skip(at) =~= name);
    assert(whole.subrange(at + i, at + i + needle.len()) =~= name.subrange(
        i,
        i + needle.len(),
    ));
    assert(occurs_at(whole, needle, at + i));
}

/// Searching in paths only adds to what is found in names.
pub proof fn searching_paths_only_adds(v: IndexView, pattern: Seq<char>, o: SearchOpts, d: u32)
    requires
        v.searchable(),
        !o.regex,
        v.hits(pattern, SearchOpts { in_path: false, ..o }).contains(d),
    ensures
        v.hits(pattern, SearchOpts { in_path: true, ..o }).contains(d),
{
    let names = SearchOpts { in_path: false, ..o };
    let paths = SearchOpts { in_path: true, ..o };
    let terms = terms_of(pattern);
    let needles = needles_of(terms, o.match_case);
    search_is_exact(v, pattern, names);
    search_is_exact(v, pattern, paths);
    lemma_needles(pattern, o.match_case);
    assert(v.wanted(pattern, names)(d as int));
    if by_name(pattern, names) {
        lemma_name_in_path(v, d as int, o.match_case, needles[0]);
        assert(all_occur(v.compared_path(d as int, o.match_case), needles));
    }
    assert(v.accepts(d as int, names) == v.accepts(d as int, paths));
    assert(v.wanted(pattern, paths)(d as int));
}

// The same tree, with and without the trigram lists.

/// Every hit is looked for in names: there is one term, and neither it nor the
/// options ask for the path.
pub open spec fn by_name(pattern: Seq<char>, o: SearchOpts) -> bool {
    let terms = terms_of(pattern);
    terms.len() == 1 && !o.in_path && !slashed(terms[0])
}

/// What a search is for depends on the tree alone.
proof fn lemma_same_wants(v: IndexView, w: IndexView, pattern: Seq<char>, o: SearchOpts, i: int)
    requires
        w.nodes == v.nodes,
        w.root == v.root,
    ensures
        v.wanted(pattern, o)(i) == w.wanted(pattern, o)(i),
        forall|in_path: bool| #[trigger]
            v.regex_match(pattern, o, in_path)(i) == w.regex_match(pattern, o, in_path)(i),
        forall|needle: Seq<u8>| #[trigger]
            v.name_match(needle, o)(i) == w.name_match(needle, o)(i),
        forall|needle: Seq<u8>| #[trigger]
            v.path_match(needle, o)(i) == w.path_match(needle, o)(i),
        forall|needles: Seq<Seq<u8>>| #[trigger]
            v.terms_match(needles, o)(i) == w.terms_match(needles, o)(i),
{
    assert(v.compared_path(i, o.match_case) == w.compared_path(i, o.match_case));
    assert(v.compared_name(i, o.match_case) == w.compared_name(i, o.match_case));
    assert(v.accepts(i, o) == w.accepts(i, o));
    assert(v.regex_subject(i, true) == w.regex_subject(i, true));
    assert(v.regex_subject(i, false) == w.regex_subject(i, false));
}

/// Regular expressions, and a term that is looked for in names, do not go
/// through the trigram lists; nor does anything where there are none.
proof fn lemma_same_hits(v: IndexView, w: IndexView, pattern: Seq<char>, o: SearchOpts)
    requires
        w.nodes == v.nodes,
        w.root == v.root,
        o.regex || by_name(pattern, o) || (!v.indexed && !w.indexed),
    ensures
        v.hits(pattern, o) == w.hits(pattern, o),
{
    let n = v.nodes.len();
    let terms = terms_of(pattern);
    let needles = needles_of(terms, o.match_case);
    let needle = needle_of(terms[0], o.match_case);
    let in_path = o.in_path || slashed(pattern);
    assert forall|i: int| 0 <= i < n implies v.regex_match(pattern, o, in_path)(i)
        == #[trigger] w.regex_match(pattern, o, in_path)(i) by {
        lemma_same_wants(v, w, pattern, o, i);
    }
    lemma_ids_where_agree(
        v.regex_match(pattern, o, in_path),
        w.regex_match(pattern, o, in_path),
        n,
    );
    assert forall|i: int| 0 <= i < n implies v.name_match(needle, o)(i) == #[trigger] w.name_match(
        needle,
        o,
    )(i) by {
        lemma_same_wants(v, w, pattern, o, i);
    }
    lemma_ids_where_agree(v.name_match(needle, o), w.name_match(needle, o), n);
    assert forall|i: int| 0 <= i < n implies v.path_match(needle, o)(i) == #[trigger] w.path_match(
        needle,
        o,
    )(i) by {
        lemma_same_wants(v, w, pattern, o, i);
    }
    lemma_ids_where_agree(v.path_match(needle, o), w.path_match(needle, o), n);
    assert forall|i: int| 0 <= i < n implies v.terms_match(needles, o)(i)
        == #[trigger] w.terms_match(needles, o)(i) by {
        lemma_same_wants(v, w, pattern, o, i);
    }
    lemma_ids_where_agree(v.terms_match(needles, o), w.terms_match(needles, o), n);
}

/// Lists that show the same entries, each once, show them in some order.
proof fn lemma_same_entries(a: Seq<u32>, b: Seq<u32>)
    requires
        a.no_duplicates(),
        b.no_duplicates(),
        forall|d: u32| #[trigger] a.contains(d) <==> b.contains(d),
    ensures
        a.to_multiset() == b.to_multiset(),
{
    broadcast use vstd::seq_lib::group_to_multiset_ensures;

    a.lemma_multiset_has_no_duplicates();
    b.lemma_multiset_has_no_duplicates();
    assert forall|d: u32| a.to_multiset().count(d) == b.to_multiset().count(d) by {
        assert(a.contains(d) <==> b.contains(d));
        assert(a.to_multiset().contains(d) <==> a.contains(d));
        assert(b.to_multiset().contains(d) <==> b.contains(d));
    }
    assert(a.to_multiset() =~= b.to_multiset());
}

/// The same entries in another order have the same paths in another order.
proof fn lemma_same_paths(nodes: Seq<Node>, a: Seq<u32>, b: Seq<u32>)
    requires
        a.to_multiset() == b.to_multiset(),
    ensures
        paths_of(nodes, a).to_multiset() == paths_of(nodes, b).to_multiset(),
    decreases a.len(),
{
    a.to_multiset_ensures();
    b.to_multiset_ensures();
    if a.len() == 0 {
        assert(paths_of(nodes, a) =~= paths_of(nodes, b));
    } else {
        let x = a.last();
        let last = a.len() - 1;
        assert(a.contains(a[last]));
        assert(a.to_multiset().count(x) > 0);
        assert(b.contains(x));
        let j = choose|j: int| 0 <= j < b.len() && b[j] == x;
        let less = b.remove(j);
        assert(a.remove(last) =~= a.drop_last());
        lemma_same_paths(nodes, a.drop_last(), less);
        let p = path(nodes, x as int);
        let all = paths_of(nodes, b);
        let few = paths_of(nodes, a.drop_last());
        all.to_multiset_ensures();
        few.to_multiset_ensures();
        assert(paths_of(nodes, a) =~= few.push(p));
        assert(all.remove(j) =~= paths_of(nodes, less));
        assert(all[j] == p);
        assert(all.contains(p));
        assert(all.to_multiset() =~= few.to_multiset().insert(p));
    }
}

/// Two indexes of the same tree, each with its trigram lists or without, answer
/// alike: the same entries, each once. The order is the same for regular
/// expressions, for a term that is looked for in names, and where neither has
/// the lists.
proof fn lemma_same_answers(v: IndexView, w: IndexView, pattern: Seq<char>, o: SearchOpts)
    requires
        v.searchable(),
        w.searchable(),
        w.nodes == v.nodes,
        w.root == v.root,
    ensures
        v.hits(pattern, o).no_duplicates(),
        v.hits(pattern, o).to_multiset() == w.hits(pattern, o).to_multiset(),
        paths_of(v.nodes, v.hits(pattern, o)).to_multiset() == paths_of(
            w.nodes,
            w.hits(pattern, o),
        ).to_multiset(),
        o.regex || by_name(pattern, o) || (!v.indexed && !w.indexed) ==> v.hits(pattern, o)
            == w.hits(pattern, o),
{
    let a = v.hits(pattern, o);
    let b = w.hits(pattern, o);
    hits_are_distinct(v, pattern, o);
    hits_are_distinct(w, pattern, o);
    if o.regex || by_name(pattern, o) || (!v.indexed && !w.indexed) {
        lemma_same_hits(v, w, pattern, o);
    } else if pattern.len() > 0 {
        search_is_exact(v, pattern, o);
        search_is_exact(w, pattern, o);
        assert forall|d: u32| #[trigger] a.contains(d) <==> b.contains(d) by {
            lemma_same_wants(v, w, pattern, o, d as int);
        }
        lemma_same_entries(a, b);
    }
    lemma_same_paths(v.nodes, a, b);
}

/// Building the trigram lists changes no answer: before and after it a search
/// finds the same entries, each once, and fails on the same regular
/// expressions. In regular-expression mode, and for a term that is looked for
/// in names, the order is the same too.
pub proof fn indexing_changes_no_answer(v: IndexView, pattern: Seq<char>, o: SearchOpts)
    requires
        v.searchable(),
        (IndexView { indexed: true, ..v }).searchable(),
    ensures
        ({
            let w = IndexView { indexed: true, ..v };
            &&& w.hits(pattern, o).no_duplicates()
            &&& w.hits(pattern, o).to_multiset() == v.hits(pattern, o).to_multiset()
            &&& paths_of(w.nodes, w.hits(pattern, o)).to_multiset() == paths_of(
                v.nodes,
                v.hits(pattern, o),
            ).to_multiset()
            &&& o.regex || by_name(pattern, o) ==> w.hits(pattern, o) == v.hits(pattern, o)
            &&& o.regex ==> forall|limit: int, r: Result<Vec<Vec<u8>>, String>|
                search_outcome(w, pattern, limit, o, r) <==> #[trigger] search_outcome(
                    v,
                    pattern,
                    limit,
                    o,
                    r,
                )
        }),
{
    let w = IndexView { indexed: true, ..v };
    lemma_same_answers(w, v, pattern, o);
}

/// Where names lead depends on the tree alone.
proof fn lemma_same_descent(v: IndexView, w: IndexView, from: u32, names: Seq<Seq<u8>>)
    requires
        w.nodes == v.nodes,
    ensures
        v.descend(from, names) == w.descend(from, names),
    decreases names.len(),
{
    if names.len() > 0 {
        assert(v.child(from, names[0]) == w.child(from, names[0]));
        if let Some(k) = v.child(from, names[0]) {
            lemma_same_descent(v, w, k, names.skip(1));
        }
    }
}

/// A snapshot keeps the entries and the root, and nothing else. What is loaded
/// from it answers every search as what was saved: with the same entries, each
/// once, and, unless the lists were built, in the same order. Names and paths
/// lead to the same entries; inodes lead nowhere until the next walk.
pub proof fn reloading_changes_no_answer(
    v: IndexView,
    pattern: Seq<char>,
    o: SearchOpts,
    parent: u32,
    name: Seq<u8>,
    p: Seq<u8>,
    ino: u64,
)
    requires
        v.searchable(),
    ensures
        ({
            let w = IndexView { dir_ino: Map::empty(), indexed: false, ..v };
            &&& w.hits(pattern, o).no_duplicates()
            &&& w.hits(pattern, o).to_multiset() == v.hits(pattern, o).to_multiset()
            &&& paths_of(w.nodes, w.hits(pattern, o)).to_multiset() == paths_of(
                v.nodes,
                v.hits(pattern, o),
            ).to_multiset()
            &&& !v.indexed || o.regex || by_name(pattern, o) ==> {
                &&& w.hits(pattern, o) == v.hits(pattern, o)
                &&& forall|limit: int, r: Result<Vec<Vec<u8>>, String>|
                    search_outcome(w, pattern, limit, o, r) <==> #[trigger] search_outcome(
                        v,
                        pattern,
                        limit,
                        o,
                        r,
                    )
            }
            &&& w.child(parent, name) == v.child(parent, name)
            &&& w.resolved(p) == v.resolved(p)
            &&& !w.dir_ino.contains_key(ino)
        }),
{
    let w = IndexView { dir_ino: Map::empty(), indexed: false, ..v };
    lemma_same_answers(w, v, pattern, o);
    let top = v.nodes[v.root as int].name;
    lemma_same_descent(v, w, v.root, components(p));
    lemma_same_descent(v, w, v.root, components(p.skip(top.len() as int)));
}

} // verus!
