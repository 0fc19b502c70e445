//! What a search finds, whichever way it goes about it: exactly the accepted
//! entries that hold every term, each once.

use vstd::prelude::*;
use crate::anchored::{reach, reached, walk, walk_kids};
use crate::bytes::SLASH;
use crate::ids::lemma_ids_where;
use crate::index::IndexView;
use crate::options::SearchOpts;
use crate::search::all_occur;
use crate::tree::{
    child_ids, child_of, dotted, has_parent, hidden, lemma_chain_order, lemma_chain_total,
    lemma_chain_trans, on_chain, parents_first, Node, NO_PARENT,
};

verus! {

impl IndexView {
    /// The index of one folder: everything hangs below the root, whose name is
    /// the one that may hold separators.
    pub open spec fn tidy(self) -> bool {
        &&& self.root < self.nodes.len()
        &&& forall|i: int|
            0 <= i < self.nodes.len() ==> ((#[trigger] self.nodes[i]).parent == NO_PARENT <==> i
                == self.root)
        &&& forall|i: int|
            0 <= i < self.nodes.len() && i != self.root ==> !(
            #[trigger] self.nodes[i]).name.contains(SLASH)
    }

    /// The trigram lists are used only where they can be.
    pub open spec fn searchable(self) -> bool {
        parents_first(self.nodes) && (self.indexed && self.root != NO_PARENT ==> self.tidy())
    }
}

/// A list shows each of its elements once, and those are what `want` selects.
pub open spec fn lists_exactly(ids: Seq<u32>, want: spec_fn(int) -> bool, n: nat) -> bool {
    &&& ids.no_duplicates()
    &&& forall|d: u32| #[trigger] ids.contains(d) <==> (d < n && want(d as int))
}

// What the walk down from an anchor shows.

/// `x` is left out of the walk down from `a`.
pub open spec fn left_out(nodes: Seq<Node>, hide: bool, a: int, x: int) -> bool {
    x != a && hide && dotted(nodes[x].name)
}

/// `d` is below `cur`, or `cur` itself, and nothing from it up to `cur` is
/// left out.
pub open spec fn visible(nodes: Seq<Node>, hide: bool, a: int, cur: int, d: int) -> bool
    decreases d,
{
    !left_out(nodes, hide, a, d) && (d == cur || (has_parent(nodes, d) && visible(
        nodes,
        hide,
        a,
        cur,
        nodes[d].parent as int,
    )))
}

proof fn lemma_visible_chain(nodes: Seq<Node>, hide: bool, a: int, cur: int, d: int)
    requires
        visible(nodes, hide, a, cur, d),
    ensures
        on_chain(nodes, cur, d),
        !left_out(nodes, hide, a, cur),
    decreases d,
{
    if d != cur {
        lemma_visible_chain(nodes, hide, a, cur, nodes[d].parent as int);
    }
}

/// What is visible from a child is visible from its parent.
proof fn lemma_visible_up(nodes: Seq<Node>, hide: bool, a: int, cur: int, kid: int, d: int)
    requires
        visible(nodes, hide, a, kid, d),
        has_parent(nodes, kid),
        nodes[kid].parent == cur,
        !left_out(nodes, hide, a, cur),
    ensures
        visible(nodes, hide, a, cur, d),
    decreases d,
{
    if d == kid {
        assert(visible(nodes, hide, a, cur, cur));
    } else {
        lemma_visible_up(nodes, hide, a, cur, kid, nodes[d].parent as int);
    }
}

/// What is visible below `cur` is visible from one of its children.
proof fn lemma_visible_down(nodes: Seq<Node>, hide: bool, a: int, cur: int, d: int) -> (kid: int)
    requires
        visible(nodes, hide, a, cur, d),
        d != cur,
    ensures
        has_parent(nodes, kid),
        nodes[kid].parent == cur,
        visible(nodes, hide, a, kid, d),
    decreases d,
{
    let p = nodes[d].parent as int;
    if p == cur {
        d
    } else {
        let kid = lemma_visible_down(nodes, hide, a, cur, p);
        kid
    }
}

proof fn lemma_walk(nodes: Seq<Node>, hide: bool, a: u32, cur: u32)
    requires
        parents_first(nodes),
        cur < nodes.len(),
    ensures
        walk(nodes, hide, a, cur).no_duplicates(),
        forall|d: u32| #[trigger]
            walk(nodes, hide, a, cur).contains(d) <==> (d < nodes.len() && visible(
                nodes,
                hide,
                a as int,
                cur as int,
                d as int,
            )),
    decreases nodes.len() - cur, child_ids(nodes, cur).len() + 1,
{
    let w = walk(nodes, hide, a, cur);
    if left_out(nodes, hide, a as int, cur as int) {
        assert forall|d: u32| !visible(nodes, hide, a as int, cur as int, d as int) by {
            if visible(nodes, hide, a as int, cur as int, d as int) {
                lemma_visible_chain(nodes, hide, a as int, cur as int, d as int);
            }
        }
    } else {
        lemma_walk_kids(nodes, hide, a, cur, 0);
        let rest = walk_kids(nodes, hide, a, cur, 0);
        let kids = child_ids(nodes, cur);
        assert(w == seq![cur] + rest);
        lemma_ids_where(child_of(nodes, cur), nodes.len());
        assert forall|d: u32| #[trigger] w.contains(d) <==> (d < nodes.len() && visible(
            nodes,
            hide,
            a as int,
            cur as int,
            d as int,
        )) by {
            if w.contains(d) {
                let k = choose|k: int| 0 <= k < w.len() && w[k] == d;
                if k > 0 {
                    assert(rest[k - 1] == d);
                    assert(rest.contains(d));
                    let q = choose|q: int|
                        0 <= q < kids.len() && visible(
                            nodes,
                            hide,
                            a as int,
                            (#[trigger] kids[q]) as int,
                            d as int,
                        );
                    assert(child_of(nodes, cur)(kids[q] as int));
                    lemma_visible_up(
                        nodes,
                        hide,
                        a as int,
                        cur as int,
                        kids[q] as int,
                        d as int,
                    );
                }
            }
            if d < nodes.len() && visible(nodes, hide, a as int, cur as int, d as int) {
                if d == cur {
                    assert(w[0] == d);
                } else {
                    let kid = lemma_visible_down(nodes, hide, a as int, cur as int, d as int);
                    assert(child_of(nodes, cur)(kid));
                    assert(kids.contains(kid as u32));
                    let q = choose|q: int| 0 <= q < kids.len() && kids[q] == kid as u32;
                    assert(visible(nodes, hide, a as int, kids[q] as int, d as int));
                    assert(rest.contains(d));
                    let k = choose|k: int| 0 <= k < rest.len() && rest[k] == d;
                    assert(w[k + 1] == d);
                }
            }
        }
        assert(!rest.contains(cur)) by {
            if rest.contains(cur) {
                let q = choose|q: int|
                    0 <= q < kids.len() && visible(
                        nodes,
                        hide,
                        a as int,
                        (#[trigger] kids[q]) as int,
                        cur as int,
                    );
                lemma_visible_chain(nodes, hide, a as int, kids[q] as int, cur as int);
                lemma_chain_order(nodes, kids[q] as int, cur as int);
                assert(child_of(nodes, cur)(kids[q] as int));
            }
        }
        assert forall|i: int, j: int| 0 <= i < w.len() && 0 <= j < w.len() && i != j implies w[i]
            != w[j] by {
            if i == 0 {
                assert(rest.contains(rest[j - 1]));
                assert(w[j] == rest[j - 1]);
            } else if j == 0 {
                assert(rest.contains(rest[i - 1]));
                assert(w[i] == rest[i - 1]);
            } else {
                assert(w[i] == rest[i - 1] && w[j] == rest[j - 1]);
            }
        }
    }
}

proof fn lemma_walk_kids(nodes: Seq<Node>, hide: bool, a: u32, cur: u32, j: nat)
    requires
        parents_first(nodes),
        cur < nodes.len(),
        j <= child_ids(nodes, cur).len(),
    ensures
        walk_kids(nodes, hide, a, cur, j).no_duplicates(),
        forall|d: u32| #[trigger]
            walk_kids(nodes, hide, a, cur, j).contains(d) <==> (d < nodes.len() && exists|q: int|
                j <= q < child_ids(nodes, cur).len() && visible(
                    nodes,
                    hide,
                    a as int,
                    (#[trigger] child_ids(nodes, cur)[q]) as int,
                    d as int,
                )),
    decreases nodes.len() - cur, child_ids(nodes, cur).len() - j,
{
    let kids = child_ids(nodes, cur);
    let all = walk_kids(nodes, hide, a, cur, j);
    lemma_ids_where(child_of(nodes, cur), nodes.len());
    if j < kids.len() {
        let kid = kids[j as int];
        assert(child_of(nodes, cur)(kid as int));
        assert(nodes[kid as int].parent == cur);
        assert(cur < kid < nodes.len());
        lemma_walk(nodes, hide, a, kid);
        lemma_walk_kids(nodes, hide, a, cur, j + 1);
        let x = walk(nodes, hide, a, kid);
        let y = walk_kids(nodes, hide, a, cur, j + 1);
        assert(all == x + y);
        assert forall|d: u32| x.contains(d) implies !y.contains(d) by {
            if y.contains(d) {
                let q = choose|q: int|
                    j + 1 <= q < kids.len() && visible(
                        nodes,
                        hide,
                        a as int,
                        (#[trigger] kids[q]) as int,
                        d as int,
                    );
                assert(kid < kids[q]);
                lemma_visible_chain(nodes, hide, a as int, kid as int, d as int);
                lemma_visible_chain(nodes, hide, a as int, kids[q] as int, d as int);
                lemma_chain_total(nodes, kid as int, kids[q] as int, d as int);
                assert(child_of(nodes, cur)(kids[q] as int));
                lemma_chain_order(nodes, kid as int, cur as int);
            }
        }
        assert forall|d: u32| #[trigger] all.contains(d) <==> (x.contains(d) || y.contains(d)) by {
            if x.contains(d) {
                let k = choose|k: int| 0 <= k < x.len() && x[k] == d;
                assert(all[k] == d);
            }
            if y.contains(d) {
                let k = choose|k: int| 0 <= k < y.len() && y[k] == d;
                assert(all[x.len() + k] == d);
            }
            if all.contains(d) {
                let k = choose|k: int| 0 <= k < all.len() && all[k] == d;
                if k < x.len() {
                    assert(x[k] == d);
                } else {
                    assert(y[k - x.len()] == d);
                }
            }
        }
        assert forall|d: u32| #[trigger] all.contains(d) <==> (d < nodes.len() && exists|q: int|
            j <= q < kids.len() && visible(
                nodes,
                hide,
                a as int,
                (#[trigger] kids[q]) as int,
                d as int,
            )) by {
            if all.contains(d) {
                if x.contains(d) {
                    assert(visible(nodes, hide, a as int, kids[j as int] as int, d as int));
                } else {
                    assert(y.contains(d));
                }
            }
            if d < nodes.len() && exists|q: int|
                j <= q < kids.len() && visible(
                    nodes,
                    hide,
                    a as int,
                    (#[trigger] kids[q]) as int,
                    d as int,
                ) {
                let q = choose|q: int|
                    j <= q < kids.len() && visible(
                        nodes,
                        hide,
                        a as int,
                        (#[trigger] kids[q]) as int,
                        d as int,
                    );
                if q == j {
                    assert(x.contains(d));
                } else {
                    assert(y.contains(d));
                }
            }
        }
        assert forall|p: int, q: int| 0 <= p < all.len() && 0 <= q < all.len() && p != q implies all[p]
            != all[q] by {
            if p < x.len() && q >= x.len() {
                assert(x.contains(x[p]));
                assert(y.contains(y[q - x.len()]));
            }
            if q < x.len() && p >= x.len() {
                assert(x.contains(x[q]));
                assert(y.contains(y[p - x.len()]));
            }
        }
    }
}

proof fn lemma_reach_chain(nodes: Seq<Node>, hide: bool, a: int, d: int)
    requires
        reach(nodes, hide, a, d),
    ensures
        on_chain(nodes, a, d),
    decreases d,
{
    if a != d {
        lemma_reach_chain(nodes, hide, a, nodes[d].parent as int);
    }
}

// Hidden entries.

/// Whoever is below a hidden entry is hidden, where the root has no parent.
proof fn lemma_hidden_below(nodes: Seq<Node>, root: u32, a: int, d: int)
    requires
        root < nodes.len(),
        nodes[root as int].parent == NO_PARENT,
        on_chain(nodes, a, d),
        hidden(nodes, root, a),
    ensures
        hidden(nodes, root, d),
    decreases d,
{
    if a != d {
        lemma_hidden_below(nodes, root, a, nodes[d].parent as int);
    }
}

/// An entry that is not hidden is visible from every entry on its chain, and
/// come by on the walk from there.
proof fn lemma_unhidden_visible(nodes: Seq<Node>, root: u32, a: int, d: int)
    requires
        root < nodes.len(),
        nodes[root as int].parent == NO_PARENT,
        on_chain(nodes, a, d),
        !hidden(nodes, root, d),
    ensures
        visible(nodes, true, a, a, d),
        reach(nodes, true, a, d),
    decreases d,
{
    if a != d {
        let p = nodes[d].parent as int;
        assert(d != root);
        assert(!dotted(nodes[d].name));
        lemma_unhidden_visible(nodes, root, a, p);
        if p != a {
            assert(p != root) by {
                if p == root {
                    lemma_chain_step(nodes, a, p);
                }
            }
            assert(!dotted(nodes[p].name));
        }
    }
}

/// Only the end of a chain is on the chain of an entry without a parent.
proof fn lemma_chain_step(nodes: Seq<Node>, a: int, d: int)
    requires
        on_chain(nodes, a, d),
        a != d,
    ensures
        has_parent(nodes, d),
{
}

/// With nothing left out, a chain is all that visibility asks.
proof fn lemma_chain_visible(nodes: Seq<Node>, a: int, d: int)
    requires
        on_chain(nodes, a, d),
    ensures
        visible(nodes, false, a, a, d),
        reach(nodes, false, a, d),
    decreases d,
{
    if a != d {
        lemma_chain_visible(nodes, a, nodes[d].parent as int);
    }
}

/// What is visible from an entry that is not hidden is not hidden.
proof fn lemma_visible_unhidden(nodes: Seq<Node>, root: u32, a: int, d: int)
    requires
        root < nodes.len(),
        nodes[root as int].parent == NO_PARENT,
        visible(nodes, true, a, a, d),
        !hidden(nodes, root, a),
    ensures
        !hidden(nodes, root, d),
    decreases d,
{
    if a != d {
        lemma_visible_unhidden(nodes, root, a, nodes[d].parent as int);
    }
}

// What a list of anchors shows.

/// `k` is the first anchor on the chain of `d`.
pub open spec fn top_anchor(nodes: Seq<Node>, anchors: Seq<(u32, bool)>, k: int, d: int) -> bool {
    &&& 0 <= k < anchors.len()
    &&& on_chain(nodes, anchors[k].0 as int, d)
    &&& forall|i: int| 0 <= i < k ==> !on_chain(nodes, (#[trigger] anchors[i]).0 as int, d)
}

/// `d` is shown for anchor `k`.
pub open spec fn shown_for(
    v: IndexView,
    anchors: Seq<(u32, bool)>,
    o: SearchOpts,
    verify: Seq<Seq<u8>>,
    k: int,
    d: u32,
) -> bool {
    &&& d < v.nodes.len()
    &&& v.accepts(d as int, o)
    &&& all_occur(v.compared_path(d as int, o.match_case), verify)
    &&& top_anchor(v.nodes, anchors, k, d as int)
    &&& anchors[k].1 || d != anchors[k].0
}

/// The anchors stand in ascending order and name entries.
pub open spec fn anchors_ok(nodes: Seq<Node>, anchors: Seq<(u32, bool)>) -> bool {
    &&& forall|i: int| 0 <= i < anchors.len() ==> (#[trigger] anchors[i]).0 < nodes.len()
    &&& forall|i: int, j: int|
        0 <= i < j < anchors.len() ==> (#[trigger] anchors[i]).0 < (#[trigger] anchors[j]).0
}

/// What has been come by after the first `j` anchors.
pub open spec fn seen_ok(
    v: IndexView,
    anchors: Seq<(u32, bool)>,
    j: int,
    seen: Set<u32>,
    o: SearchOpts,
) -> bool {
    &&& forall|x: u32| #[trigger]
        seen.contains(x) ==> exists|i: int|
            0 <= i < j && on_chain(v.nodes, (#[trigger] anchors[i]).0 as int, x as int)
    &&& forall|i: int, x: u32|
        0 <= i < j && top_anchor(v.nodes, anchors, i, anchors[i].0 as int) && !(o.hide_hidden
            && hidden(v.nodes, v.root, anchors[i].0 as int)) && x < v.nodes.len() && reach(
            v.nodes,
            o.hide_hidden,
            (#[trigger] anchors[i]).0 as int,
            x as int,
        ) ==> #[trigger] seen.contains(x)
}

/// The filter of a list has the elements that pass.
proof fn lemma_filter_contains(s: Seq<u32>, keep: spec_fn(u32) -> bool, d: u32)
    ensures
        s.filter(keep).contains(d) <==> (s.contains(d) && keep(d)),
        s.no_duplicates() ==> s.filter(keep).no_duplicates(),
    decreases s.len(),
{
    reveal(Seq::filter);
    if s.len() > 0 {
        let t = s.drop_last();
        lemma_filter_contains(t, keep, d);
        let f = t.filter(keep);
        assert(s =~= t.push(s.last()));
        crate::ids::lemma_push_contains(t, s.last(), d);
        if keep(s.last()) {
            crate::ids::lemma_push_contains(f, s.last(), d);
            if s.no_duplicates() {
                assert(t.no_duplicates());
                lemma_filter_contains(t, keep, s.last());
                assert(!t.contains(s.last())) by {
                    if t.contains(s.last()) {
                        let k = choose|k: int| 0 <= k < t.len() && t[k] == s.last();
                        assert(s[k] == s[s.len() - 1]);
                    }
                }
                let g = f.push(s.last());
                assert forall|i: int, j: int|
                    0 <= i < g.len() && 0 <= j < g.len() && i != j implies g[i] != g[j] by {
                    if i == f.len() {
                        assert(f.contains(f[j]));
                    } else if j == f.len() {
                        assert(f.contains(f[i]));
                    }
                }
            }
        } else if s.no_duplicates() {
            assert(t.no_duplicates());
        }
    }
}

#[verifier::rlimit(50)]
proof fn lemma_shown_from(
    v: IndexView,
    anchors: Seq<(u32, bool)>,
    j: int,
    seen: Set<u32>,
    o: SearchOpts,
    verify: Seq<Seq<u8>>,
)
    requires
        parents_first(v.nodes),
        v.root < v.nodes.len(),
        v.nodes[v.root as int].parent == NO_PARENT,
        anchors_ok(v.nodes, anchors),
        0 <= j <= anchors.len(),
        seen_ok(v, anchors, j, seen, o),
    ensures
        v.shown_from(anchors, j, seen, o, verify).no_duplicates(),
        forall|d: u32| #[trigger]
            v.shown_from(anchors, j, seen, o, verify).contains(d) <==> exists|k: int|
                j <= k && #[trigger] shown_for(v, anchors, o, verify, k, d),
    decreases anchors.len() - j,
{
    let nodes = v.nodes;
    let hide = o.hide_hidden;
    let all = v.shown_from(anchors, j, seen, o, verify);
    if j < anchors.len() {
        let (a, with_self) = anchors[j];
        assert(anchors[j].0 < nodes.len());
        if seen.contains(a) || (hide && hidden(nodes, v.root, a as int)) {
            assert(seen_ok(v, anchors, j + 1, seen, o)) by {
                assert forall|i: int, x: u32|
                    0 <= i < j + 1 && top_anchor(nodes, anchors, i, anchors[i].0 as int) && !(hide
                        && hidden(nodes, v.root, anchors[i].0 as int)) && x < nodes.len() && reach(
                        nodes,
                        hide,
                        (#[trigger] anchors[i]).0 as int,
                        x as int,
                    ) implies #[trigger] seen.contains(x) by {
                    if i == j {
                        assert(seen.contains(a));
                        let q = choose|q: int|
                            0 <= q < j && on_chain(
                                nodes,
                                (#[trigger] anchors[q]).0 as int,
                                a as int,
                            );
                        assert(!on_chain(nodes, anchors[q].0 as int, a as int));
                    }
                }
                assert forall|x: u32| #[trigger] seen.contains(x) implies exists|i: int|
                    0 <= i < j + 1 && on_chain(nodes, (#[trigger] anchors[i]).0 as int, x as int) by {
                    let q = choose|q: int|
                        0 <= q < j && on_chain(nodes, (#[trigger] anchors[q]).0 as int, x as int);
                    assert(on_chain(nodes, anchors[q].0 as int, x as int));
                }
            }
            lemma_shown_from(v, anchors, j + 1, seen, o, verify);
            assert forall|d: u32| !shown_for(v, anchors, o, verify, j, d) by {
                if shown_for(v, anchors, o, verify, j, d) {
                    if hide && hidden(nodes, v.root, a as int) {
                        lemma_hidden_below(nodes, v.root, a as int, d as int);
                    } else {
                        let q = choose|q: int|
                            0 <= q < j && on_chain(
                                nodes,
                                (#[trigger] anchors[q]).0 as int,
                                a as int,
                            );
                        lemma_chain_trans(nodes, anchors[q].0 as int, a as int, d as int);
                    }
                }
            }
            assert forall|d: u32| #[trigger] all.contains(d) <==> exists|k: int|
                j <= k && #[trigger] shown_for(v, anchors, o, verify, k, d) by {
                if all.contains(d) {
                    let k = choose|k: int|
                        j + 1 <= k && #[trigger] shown_for(v, anchors, o, verify, k, d);
                    assert(shown_for(v, anchors, o, verify, k, d));
                }
            }
        } else {
            let next = seen.union(reached(nodes, hide, a));
            assert(seen_ok(v, anchors, j + 1, next, o)) by {
                assert forall|x: u32| #[trigger] next.contains(x) implies exists|i: int|
                    0 <= i < j + 1 && on_chain(nodes, (#[trigger] anchors[i]).0 as int, x as int) by {
                    if seen.contains(x) {
                        let q = choose|q: int|
                            0 <= q < j && on_chain(
                                nodes,
                                (#[trigger] anchors[q]).0 as int,
                                x as int,
                            );
                        assert(on_chain(nodes, anchors[q].0 as int, x as int));
                    } else {
                        lemma_reach_chain(nodes, hide, a as int, x as int);
                        assert(on_chain(nodes, anchors[j].0 as int, x as int));
                    }
                }
                assert forall|i: int, x: u32|
                    0 <= i < j + 1 && top_anchor(nodes, anchors, i, anchors[i].0 as int) && !(hide
                        && hidden(nodes, v.root, anchors[i].0 as int)) && x < nodes.len() && reach(
                        nodes,
                        hide,
                        (#[trigger] anchors[i]).0 as int,
                        x as int,
                    ) implies #[trigger] next.contains(x) by {
                    if i < j {
                        assert(seen.contains(x));
                    }
                }
            }
            lemma_shown_from(v, anchors, j + 1, next, o, verify);
            let keep = v.shows(a, with_self, o, verify);
            let w = walk(nodes, hide, a, a);
            let items = w.filter(keep);
            let rest = v.shown_from(anchors, j + 1, next, o, verify);
            lemma_walk(nodes, hide, a, a);
            assert(all == items + rest);
            assert forall|d: u32| #[trigger] items.contains(d) <==> shown_for(
                v,
                anchors,
                o,
                verify,
                j,
                d,
            ) by {
                lemma_filter_contains(w, keep, d);
                if items.contains(d) {
                    lemma_visible_chain(nodes, hide, a as int, a as int, d as int);
                    if hide {
                        lemma_visible_unhidden(nodes, v.root, a as int, d as int);
                    }
                    assert forall|i: int| 0 <= i < j implies !on_chain(
                        nodes,
                        (#[trigger] anchors[i]).0 as int,
                        d as int,
                    ) by {
                        if on_chain(nodes, anchors[i].0 as int, d as int) {
                            lemma_seen_anchor(v, anchors, j, seen, o, i, d as int);
                        }
                    }
                }
                if shown_for(v, anchors, o, verify, j, d) {
                    if hide {
                        lemma_unhidden_visible(nodes, v.root, a as int, d as int);
                    } else {
                        lemma_chain_visible(nodes, a as int, d as int);
                    }
                    assert(w.contains(d));
                    assert(keep(d));
                }
            }
            lemma_filter_contains(w, keep, 0);
            assert forall|d: u32| #[trigger] all.contains(d) <==> (items.contains(d)
                || rest.contains(d)) by {
                if items.contains(d) {
                    let k = choose|k: int| 0 <= k < items.len() && items[k] == d;
                    assert(all[k] == d);
                }
                if rest.contains(d) {
                    let k = choose|k: int| 0 <= k < rest.len() && rest[k] == d;
                    assert(all[items.len() + k] == d);
                }
                if all.contains(d) {
                    let k = choose|k: int| 0 <= k < all.len() && all[k] == d;
                    if k < items.len() {
                        assert(items[k] == d);
                    } else {
                        assert(rest[k - items.len()] == d);
                    }
                }
            }
            assert forall|d: u32| #[trigger] all.contains(d) <==> exists|k: int|
                j <= k && #[trigger] shown_for(v, anchors, o, verify, k, d) by {
                if all.contains(d) {
                    if items.contains(d) {
                        assert(shown_for(v, anchors, o, verify, j, d));
                    } else {
                        let k = choose|k: int|
                            j + 1 <= k && #[trigger] shown_for(v, anchors, o, verify, k, d);
                        assert(shown_for(v, anchors, o, verify, k, d));
                    }
                }
                if exists|k: int| j <= k && #[trigger] shown_for(v, anchors, o, verify, k, d) {
                    let k = choose|k: int|
                        j <= k && #[trigger] shown_for(v, anchors, o, verify, k, d);
                    if k == j {
                        assert(items.contains(d));
                    } else {
                        assert(rest.contains(d));
                    }
                }
            }
            assert forall|d: u32| items.contains(d) implies !rest.contains(d) by {
                if rest.contains(d) {
                    let k = choose|k: int|
                        j + 1 <= k && #[trigger] shown_for(v, anchors, o, verify, k, d);
                    assert(shown_for(v, anchors, o, verify, j, d));
                    assert(!on_chain(nodes, anchors[j].0 as int, d as int));
                }
            }
            assert forall|p: int, q: int|
                0 <= p < all.len() && 0 <= q < all.len() && p != q implies all[p] != all[q] by {
                if p < items.len() && q >= items.len() {
                    assert(items.contains(items[p]));
                    assert(rest.contains(rest[q - items.len()]));
                }
                if q < items.len() && p >= items.len() {
                    assert(items.contains(items[q]));
                    assert(rest.contains(rest[p - items.len()]));
                }
            }
        }
    }
}

/// If an earlier anchor is on the chain of something that the walk from anchor
/// `j` shows, anchor `j` was come by.
proof fn lemma_seen_anchor(
    v: IndexView,
    anchors: Seq<(u32, bool)>,
    j: int,
    seen: Set<u32>,
    o: SearchOpts,
    i: int,
    d: int,
)
    requires
        parents_first(v.nodes),
        v.root < v.nodes.len(),
        v.nodes[v.root as int].parent == NO_PARENT,
        anchors_ok(v.nodes, anchors),
        0 <= i < j < anchors.len(),
        seen_ok(v, anchors, j, seen, o),
        on_chain(v.nodes, anchors[j].0 as int, d),
        on_chain(v.nodes, anchors[i].0 as int, d),
        o.hide_hidden ==> !hidden(v.nodes, v.root, d),
    ensures
        seen.contains(anchors[j].0),
    decreases i,
{
    let nodes = v.nodes;
    let a = anchors[j].0 as int;
    let b = anchors[i].0 as int;
    if exists|q: int| 0 <= q < i && on_chain(nodes, (#[trigger] anchors[q]).0 as int, b) {
        let q = choose|q: int| 0 <= q < i && on_chain(nodes, (#[trigger] anchors[q]).0 as int, b);
        lemma_chain_trans(nodes, anchors[q].0 as int, b, d);
        lemma_seen_anchor(v, anchors, j, seen, o, q, d);
    } else {
        assert(top_anchor(nodes, anchors, i, b));
        assert(anchors[i].0 < anchors[j].0);
        lemma_chain_total(nodes, b, a, d);
        if o.hide_hidden {
            if hidden(nodes, v.root, b) {
                lemma_hidden_below(nodes, v.root, b, d);
            }
            if hidden(nodes, v.root, a) {
                lemma_hidden_below(nodes, v.root, a, d);
            }
            lemma_unhidden_visible(nodes, v.root, b, a);
        } else {
            lemma_chain_visible(nodes, b, a);
        }
        assert(reach(nodes, o.hide_hidden, anchors[i].0 as int, a));
        assert(anchors[j].0 < nodes.len());
        assert(seen.contains(anchors[j].0));
    }
}

/// `d` lies beneath one of the anchors, or is one that may be shown itself.
pub open spec fn beneath(nodes: Seq<Node>, anchors: Seq<(u32, bool)>, d: int) -> bool {
    exists|k: int|
        0 <= k < anchors.len() && on_chain(nodes, (#[trigger] anchors[k]).0 as int, d) && (
        anchors[k].1 || d != anchors[k].0)
}

/// What a list of anchors shows: every accepted entry beneath one of them that
/// holds every term of `verify`, once.
pub proof fn shown_is_exact(
    v: IndexView,
    anchors: Seq<(u32, bool)>,
    o: SearchOpts,
    verify: Seq<Seq<u8>>,
)
    requires
        parents_first(v.nodes),
        v.root < v.nodes.len(),
        v.nodes[v.root as int].parent == NO_PARENT,
        anchors_ok(v.nodes, anchors),
    ensures
        lists_exactly(
            v.shown(anchors, o, verify),
            |d: int|
                v.accepts(d, o) && all_occur(v.compared_path(d, o.match_case), verify) && beneath(
                    v.nodes,
                    anchors,
                    d,
                ),
            v.nodes.len(),
        ),
{
    let nodes = v.nodes;
    let ids = v.shown(anchors, o, verify);
    let want = |d: int|
        v.accepts(d, o) && all_occur(v.compared_path(d, o.match_case), verify) && beneath(
            v.nodes,
            anchors,
            d,
        );
    lemma_shown_from(v, anchors, 0, Set::empty(), o, verify);
    assert forall|d: u32| #[trigger] ids.contains(d) <==> (d < nodes.len() && want(d as int)) by {
        if ids.contains(d) {
            let k = choose|k: int| 0 <= k && #[trigger] shown_for(v, anchors, o, verify, k, d);
            assert(on_chain(nodes, anchors[k].0 as int, d as int));
            assert(beneath(nodes, anchors, d as int));
        }
        if d < nodes.len() && want(d as int) {
            let k = choose|k: int|
                0 <= k < anchors.len() && on_chain(
                    nodes,
                    (#[trigger] anchors[k]).0 as int,
                    d as int,
                ) && (anchors[k].1 || d != anchors[k].0);
            let m = lemma_top(nodes, anchors, k, d as int);
            if m < k {
                assert(anchors[m].0 < anchors[k].0);
                lemma_chain_order(nodes, anchors[k].0 as int, d as int);
            }
            assert(shown_for(v, anchors, o, verify, m, d));
        }
    }
}

/// If some anchor is on a chain, there is a first one.
proof fn lemma_top(nodes: Seq<Node>, anchors: Seq<(u32, bool)>, k: int, d: int) -> (m: int)
    requires
        0 <= k < anchors.len(),
        on_chain(nodes, anchors[k].0 as int, d),
    ensures
        m <= k,
        top_anchor(nodes, anchors, m, d),
    decreases k,
{
    if exists|i: int| 0 <= i < k && on_chain(nodes, (#[trigger] anchors[i]).0 as int, d) {
        let i = choose|i: int| 0 <= i < k && on_chain(nodes, (#[trigger] anchors[i]).0 as int, d);
        lemma_top(nodes, anchors, i, d)
    } else {
        k
    }
}

} // verus!
