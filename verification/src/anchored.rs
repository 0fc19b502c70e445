//! Path search through the trigram lists: the entries at which a needle ends,
//! and everything beneath them.

use vstd::prelude::*;
use crate::bytes::{contains, copy_range, ends_with, has_suffix, occurs, views, SLASH};
use crate::fold::{fold, folded, name_contains};
use crate::ids::{ascending, ids_where, lemma_ids_where, lemma_narrow, next_bound};
use crate::index::{kids_of, Index, IndexView};
use crate::maintain::push_all_reversed;
use crate::options::SearchOpts;
use crate::search::{all_occur, answers, first, lemma_push_answer, paths_of};
use crate::tree::{child_ids, child_of, dotted, has_parent, hidden, Node, NO_PARENT};
use crate::trigram::{candidate, has_all_trigrams};

verus! {

/// What follows the last separator.
pub open spec fn last_segment(s: Seq<u8>) -> Seq<u8>
    decreases s.len(),
{
    if s.len() == 0 || s.last() == SLASH {
        seq![]
    } else {
        last_segment(s.drop_last()).push(s.last())
    }
}

/// How a path needle is taken apart: its core, and whether it asks for what is
/// inside the folders that the core names, because it ended in a separator. A
/// lone separator, or several at the end, are not taken apart.
pub open spec fn anchor_core(needle: Seq<u8>) -> Option<(Seq<u8>, bool)> {
    if needle.len() > 0 && needle.last() == SLASH {
        let core = needle.drop_last();
        if core.len() > 0 && core.last() != SLASH {
            Some((core, true))
        } else {
            None
        }
    } else {
        Some((needle, false))
    }
}

/// The form in which trigrams of `s` are looked up: folded.
pub open spec fn lookup_key(s: Seq<u8>, match_case: bool) -> Seq<u8> {
    if match_case {
        folded(s)
    } else {
        s
    }
}

impl IndexView {
    /// Selects the entries at which the needle ends.
    pub open spec fn ends_here(
        self,
        needle: Seq<u8>,
        core: Seq<u8>,
        inside: bool,
        match_case: bool,
    ) -> spec_fn(int) -> bool {
        |i: int|
            has_all_trigrams(
                folded(self.nodes[i].name),
                lookup_key(last_segment(core), match_case),
            ) && (if inside {
                has_suffix(self.compared_path(i, match_case), core)
            } else {
                occurs(self.compared_path(i, match_case), needle)
            })
    }

    /// The entries at which the needle ends, and whether it matches only
    /// strictly beneath them. Nothing if the trigram lists cannot tell.
    pub open spec fn anchors(self, needle: Seq<u8>, match_case: bool) -> Option<(Seq<u32>, bool)> {
        if !self.indexed || self.root == NO_PARENT {
            None
        } else {
            match anchor_core(needle) {
                None => None,
                Some((core, inside)) => if lookup_key(last_segment(core), match_case).len() < 3 {
                    None
                } else if inside && occurs(
                    self.compared_name(self.root as int, match_case),
                    needle,
                ) {
                    Some((seq![self.root], false))
                } else {
                    Some((self.selected(self.ends_here(needle, core, inside, match_case)), inside))
                },
            }
        }
    }
}

/// `d` is come by on the walk down from `a`: no folder strictly between the
/// two is one that is left out.
pub open spec fn reach(nodes: Seq<Node>, hide: bool, a: int, d: int) -> bool
    decreases d,
{
    a == d || (has_parent(nodes, d) && {
        let p = nodes[d].parent as int;
        reach(nodes, hide, a, p) && (p == a || !(hide && dotted(nodes[p].name)))
    })
}

/// Everything come by on the walk down from `a`.
pub open spec fn reached(nodes: Seq<Node>, hide: bool, a: u32) -> Set<u32> {
    Set::new(|d: u32| d < nodes.len() && reach(nodes, hide, a as int, d as int))
}

/// `cur` and everything below it, each folder before what is in it. With
/// `hide`, dotted entries below `a` are left out with all they hold.
pub open spec fn walk(nodes: Seq<Node>, hide: bool, a: u32, cur: u32) -> Seq<u32>
    decreases nodes.len() - cur, child_ids(nodes, cur).len() + 1,
{
    if cur >= nodes.len() || (hide && cur != a && dotted(nodes[cur as int].name)) {
        seq![]
    } else {
        seq![cur] + walk_kids(nodes, hide, a, cur, 0)
    }
}

/// What `walk` gives for the children of `cur` from the `j`th on.
pub open spec fn walk_kids(nodes: Seq<Node>, hide: bool, a: u32, cur: u32, j: nat) -> Seq<u32>
    decreases nodes.len() - cur, child_ids(nodes, cur).len() - j,
{
    let kids = child_ids(nodes, cur);
    if cur >= nodes.len() || j >= kids.len() {
        seq![]
    } else {
        (if cur < kids[j as int] < nodes.len() {
            walk(nodes, hide, a, kids[j as int])
        } else {
            seq![]
        }) + walk_kids(nodes, hide, a, cur, j + 1)
    }
}

/// What is still to come from a stack of entries, its top first.
pub open spec fn pending(nodes: Seq<Node>, hide: bool, a: u32, stack: Seq<u32>) -> Seq<u32>
    decreases stack.len(),
{
    if stack.len() == 0 {
        seq![]
    } else {
        walk(nodes, hide, a, stack.last()) + pending(nodes, hide, a, stack.drop_last())
    }
}

/// Pushing the children of `cur` in reverse schedules them in order.
proof fn lemma_pending_kids(
    nodes: Seq<Node>,
    hide: bool,
    a: u32,
    rest: Seq<u32>,
    cur: u32,
    j: nat,
)
    requires
        nodes.len() <= NO_PARENT,
        cur < nodes.len(),
        j <= child_ids(nodes, cur).len(),
        forall|i: int|
            0 <= i < nodes.len() ==> (#[trigger] nodes[i]).parent == NO_PARENT || nodes[i].parent
                < i,
    ensures
        pending(nodes, hide, a, rest + child_ids(nodes, cur).skip(j as int).reverse()) == walk_kids(
            nodes,
            hide,
            a,
            cur,
            j,
        ) + pending(nodes, hide, a, rest),
    decreases child_ids(nodes, cur).len() - j,
{
    let kids = child_ids(nodes, cur);
    let stack = rest + kids.skip(j as int).reverse();
    if j == kids.len() {
        assert(stack =~= rest);
        assert(walk_kids(nodes, hide, a, cur, j) + pending(nodes, hide, a, rest) =~= pending(
            nodes,
            hide,
            a,
            rest,
        ));
    } else {
        lemma_pending_kids(nodes, hide, a, rest, cur, j + 1);
        let below = rest + kids.skip((j + 1) as int).reverse();
        assert(stack =~= below.push(kids[j as int]));
        assert(stack.drop_last() =~= below);
        lemma_ids_where(child_of(nodes, cur), nodes.len());
        assert(child_of(nodes, cur)(kids[j as int] as int));
        assert(nodes[kids[j as int] as int].parent == cur);
        assert(walk(nodes, hide, a, kids[j as int]) + (walk_kids(nodes, hide, a, cur, j + 1)
            + pending(nodes, hide, a, rest)) =~= walk_kids(nodes, hide, a, cur, j) + pending(
            nodes,
            hide,
            a,
            rest,
        ));
    }
}

impl IndexView {
    /// Whether the walk down from `a` shows `d`: itself only with `with_self`,
    /// and only what passes the filters and holds every term of `verify`.
    pub open spec fn shows(
        self,
        a: u32,
        with_self: bool,
        o: SearchOpts,
        verify: Seq<Seq<u8>>,
    ) -> spec_fn(u32) -> bool {
        |d: u32|
            (with_self || d != a) && self.passes(d as int, o) && all_occur(
                self.compared_path(d as int, o.match_case),
                verify,
            )
    }

    /// What is shown from the `j`th anchor on, where `seen` has been come by.
    pub open spec fn shown_from(
        self,
        anchors: Seq<(u32, bool)>,
        j: int,
        seen: Set<u32>,
        o: SearchOpts,
        verify: Seq<Seq<u8>>,
    ) -> Seq<u32>
        decreases anchors.len() - j,
    {
        if j < 0 || j >= anchors.len() {
            seq![]
        } else {
            let (a, with_self) = anchors[j];
            if seen.contains(a) || (o.hide_hidden && hidden(self.nodes, self.root, a as int)) {
                self.shown_from(anchors, j + 1, seen, o, verify)
            } else {
                walk(self.nodes, o.hide_hidden, a, a).filter(self.shows(a, with_self, o, verify))
                    + self.shown_from(
                    anchors,
                    j + 1,
                    seen.union(reached(self.nodes, o.hide_hidden, a)),
                    o,
                    verify,
                )
            }
        }
    }

    /// Everything beneath each anchor, and the anchor itself where its flag
    /// says so, without repeats: an anchor that was come by is skipped, and so
    /// is a hidden one if hidden entries are left out.
    pub open spec fn shown(
        self,
        anchors: Seq<(u32, bool)>,
        o: SearchOpts,
        verify: Seq<Seq<u8>>,
    ) -> Seq<u32> {
        self.shown_from(anchors, 0, Set::empty(), o, verify)
    }
}

/// `flag` beside every id.
pub open spec fn flagged(ids: Seq<u32>, flag: bool) -> Seq<(u32, bool)> {
    Seq::new(ids.len(), |k: int| (ids[k], flag))
}

/// The filter of one element.
pub proof fn lemma_filter_one(x: u32, keep: spec_fn(u32) -> bool)
    ensures
        seq![x].filter(keep) == (if keep(x) {
            seq![x]
        } else {
            seq![]
        }),
{
    let e = Seq::<u32>::empty();
    assert(seq![x] =~= e.push(x));
    e.lemma_filter_push(x, keep);
    assert(e.filter(keep) =~= e) by {
        reveal(Seq::filter);
    }
    assert(e.push(x) =~= seq![x]);
}

/// Everything on the stack is an entry that the walk comes by.
pub open spec fn scheduled(nodes: Seq<Node>, hide: bool, a: u32, stack: Seq<u32>) -> bool {
    forall|q: int|
        0 <= q < stack.len() ==> (#[trigger] stack[q]) < nodes.len() && reach(
            nodes,
            hide,
            a as int,
            stack[q] as int,
        )
}

/// The walk goes on from `p`.
pub open spec fn goes_on(nodes: Seq<Node>, hide: bool, a: u32, p: u32) -> bool {
    p == a || !(hide && dotted(nodes[p as int].name))
}

/// What follows on an entry that was come by was come by too, or is scheduled.
pub open spec fn closed_under_walk(
    nodes: Seq<Node>,
    hide: bool,
    a: u32,
    popped: Set<u32>,
    stack: Seq<u32>,
) -> bool {
    forall|k: int|
        #[trigger] has_parent(nodes, k) && popped.contains(nodes[k].parent) && goes_on(
            nodes,
            hide,
            a,
            nodes[k].parent,
        ) ==> popped.contains(k as u32) || stack.contains(k as u32)
}

/// Taking a left-out entry off the stack keeps the bookkeeping.
proof fn lemma_closed_leaf(
    nodes: Seq<Node>,
    hide: bool,
    a: u32,
    popped: Set<u32>,
    stack: Seq<u32>,
)
    requires
        stack.len() > 0,
        scheduled(nodes, hide, a, stack),
        popped.contains(a) || stack.contains(a),
        closed_under_walk(nodes, hide, a, popped, stack),
        !goes_on(nodes, hide, a, stack.last()),
    ensures
        scheduled(nodes, hide, a, stack.drop_last()),
        popped.insert(stack.last()).contains(a) || stack.drop_last().contains(a),
        closed_under_walk(nodes, hide, a, popped.insert(stack.last()), stack.drop_last()),
{
    let cur = stack.last();
    let rest = stack.drop_last();
    assert forall|x: u32| stack.contains(x) && x != cur implies rest.contains(x) by {
        let q = choose|q: int| 0 <= q < stack.len() && stack[q] == x;
        assert(rest[q] == x);
    }
    assert forall|q: int| 0 <= q < rest.len() implies (#[trigger] rest[q]) < nodes.len() && reach(
        nodes,
        hide,
        a as int,
        rest[q] as int,
    ) by {
        assert(rest[q] == stack[q]);
    }
}

/// Taking an entry off the stack and scheduling its children keeps the
/// bookkeeping.
proof fn lemma_closed_folder(
    nodes: Seq<Node>,
    hide: bool,
    a: u32,
    popped: Set<u32>,
    stack: Seq<u32>,
)
    requires
        nodes.len() <= NO_PARENT,
        forall|i: int|
            0 <= i < nodes.len() ==> (#[trigger] nodes[i]).parent == NO_PARENT || nodes[i].parent
                < i,
        stack.len() > 0,
        scheduled(nodes, hide, a, stack),
        popped.contains(a) || stack.contains(a),
        closed_under_walk(nodes, hide, a, popped, stack),
        goes_on(nodes, hide, a, stack.last()),
    ensures
        scheduled(
            nodes,
            hide,
            a,
            stack.drop_last() + child_ids(nodes, stack.last()).reverse(),
        ),
        popped.insert(stack.last()).contains(a) || (stack.drop_last() + child_ids(
            nodes,
            stack.last(),
        ).reverse()).contains(a),
        closed_under_walk(
            nodes,
            hide,
            a,
            popped.insert(stack.last()),
            stack.drop_last() + child_ids(nodes, stack.last()).reverse(),
        ),
{
    let cur = stack.last();
    let rest = stack.drop_last();
    let kids = child_ids(nodes, cur);
    let more = rest + kids.reverse();
    lemma_ids_where(child_of(nodes, cur), nodes.len());
    assert(stack[stack.len() - 1] == cur);
    assert forall|x: u32| stack.contains(x) && x != cur implies more.contains(x) by {
        let q = choose|q: int| 0 <= q < stack.len() && stack[q] == x;
        assert(more[q] == x);
    }
    assert forall|q: int| 0 <= q < more.len() implies (#[trigger] more[q]) < nodes.len() && reach(
        nodes,
        hide,
        a as int,
        more[q] as int,
    ) by {
        if q < rest.len() {
            assert(more[q] == stack[q]);
        } else {
            let r = kids.len() - 1 - (q - rest.len());
            assert(more[q] == kids[r]);
            assert(child_of(nodes, cur)(kids[r] as int));
            assert(nodes[kids[r] as int].parent == cur);
            assert(has_parent(nodes, kids[r] as int));
        }
    }
    assert forall|k: int|
        #[trigger] has_parent(nodes, k) && popped.insert(cur).contains(nodes[k].parent) && goes_on(
            nodes,
            hide,
            a,
            nodes[k].parent,
        ) implies popped.insert(cur).contains(k as u32) || more.contains(k as u32) by {
        if nodes[k].parent == cur {
            assert(child_of(nodes, cur)(k));
            assert(kids.contains(k as u32));
            let q = choose|q: int| 0 <= q < kids.len() && kids[q] == k as u32;
            assert(more[rest.len() + (kids.len() - 1 - q)] == k as u32);
        } else {
            assert(popped.contains(nodes[k].parent));
            assert(popped.contains(k as u32) || stack.contains(k as u32));
        }
    }
}

/// Once everything scheduled has been come by, all that can be reached has.
proof fn lemma_reach_popped(nodes: Seq<Node>, hide: bool, a: int, popped: Set<u32>, d: int)
    requires
        nodes.len() <= NO_PARENT,
        0 <= a < nodes.len(),
        0 <= d < nodes.len(),
        popped.contains(a as u32),
        closed_under_walk(nodes, hide, a as u32, popped, seq![]),
        reach(nodes, hide, a, d),
    ensures
        popped.contains(d as u32),
    decreases d,
{
    if a != d {
        lemma_reach_popped(nodes, hide, a, popped, nodes[d].parent as int);
        assert(has_parent(nodes, d));
    }
}

impl Index {
    /// The last segment of `core`, in the form in which it is looked up.
    fn segment_key(core: &[u8], match_case: bool) -> (key: Vec<u8>)
        ensures
            key@ == lookup_key(last_segment(core@), match_case),
    {
        let mut from: usize = core.len();
        let ghost whole = core@;
        assert(whole.skip(from as int) =~= Seq::<u8>::empty());
        assert(whole.take(from as int) =~= whole);
        assert(last_segment(whole) + Seq::<u8>::empty() =~= last_segment(whole));
        while from > 0 && core[from - 1] != SLASH
            invariant
                from <= core.len(),
                whole == core@,
                last_segment(whole) == last_segment(whole.take(from as int)) + whole.skip(
                    from as int,
                ),
            decreases from,
        {
            proof {
                let s = whole.take(from as int);
                assert(s.last() == whole[from - 1]);
                assert(s.drop_last() =~= whole.take(from - 1));
                assert(last_segment(s.drop_last()).push(s.last()) + whole.skip(from as int)
                    =~= last_segment(whole.take(from - 1)) + whole.skip(from - 1));
            }
            from = from - 1;
        }
        proof {
            let s = whole.take(from as int);
            if from > 0 {
                assert(s.last() == whole[from - 1]);
            }
            assert(last_segment(s) =~= Seq::<u8>::empty());
            assert(last_segment(whole) =~= whole.skip(from as int));
        }
        let seg = copy_range(core, from, core.len());
        assert(seg@ =~= whole.skip(from as int));
        if match_case {
            fold(seg.as_slice())
        } else {
            seg
        }
    }

    /// Entries at which a path needle's occurrence ends, found through trigrams
    /// on its last segment. The flag is true when the needle ended in a
    /// separator: the matches are then the strict descendants of the anchors.
    /// `None` when the last segment is too short for a trigram.
    pub fn path_anchors(&self, needle: &[u8], match_case: bool) -> (r: Option<(Vec<u32>, bool)>)
        requires
            self.wf(),
        ensures
            match r {
                Some((ids, strict)) => self@.anchors(needle@, match_case) == Some((ids@, strict)),
                None => self@.anchors(needle@, match_case) is None,
            },
            r matches Some((ids, strict)) ==> ascending(ids@) && forall|k: int|
                0 <= k < ids@.len() ==> #[trigger] ids@[k] < self@.nodes.len(),
    {
        if !self.trigrams_built || self.root == NO_PARENT {
            return None;
        }
        let ghost v = self@;
        let ghost nodes = v.nodes;
        let ghost n = nodes.len();
        let inside = needle.len() > 0 && needle[needle.len() - 1] == SLASH;
        let size: usize = if inside {
            needle.len() - 1
        } else {
            needle.len()
        };
        if inside && (size == 0 || needle[size - 1] == SLASH) {
            return None;
        }
        let core = copy_range(needle, 0, size);
        proof {
            if inside {
                assert(core@ =~= needle@.drop_last());
            } else {
                assert(core@ =~= needle@);
            }
            assert(anchor_core(needle@) == Some((core@, inside)));
        }
        let key = Self::segment_key(core.as_slice(), match_case);
        if key.len() < 3 {
            return None;
        }
        assert(nodes[self.root as int] == self.entries@[self.root as int]@);
        // The root entry is the one name that holds separators, so a needle can
        // lie entirely inside it; then everything matches.
        if inside && name_contains(
            self.entries[self.root as usize].name.as_slice(),
            needle,
            match_case,
        ) {
            let mut ids: Vec<u32> = Vec::new();
            ids.push(self.root);
            assert(ids@ =~= seq![v.root]);
            return Some((ids, false));
        }
        let ghost keep = v.ends_here(needle@, core@, inside, match_case);
        proof {
            lemma_ids_where(candidate(nodes, key@), n);
        }
        let ghost all = ids_where(candidate(nodes, key@), n);
        let cands = match self.trigram_candidates(key.as_slice()) {
            Some(c) => c,
            None => Vec::new(),
        };
        let ghost sup = candidate(nodes, key@);
        let mut ids: Vec<u32> = Vec::new();
        proof {
            assert(cands@ == all);
            lemma_narrow(sup, keep, n, 0);
        }
        let mut j: usize = 0;
        while j < cands.len()
            invariant
                self.wf(),
                v == self@,
                nodes == v.nodes,
                n == nodes.len(),
                key@ == lookup_key(last_segment(core@), match_case),
                sup == candidate(nodes, key@),
                keep == v.ends_here(needle@, core@, inside, match_case),
                cands@ == all,
                all == ids_where(sup, n),
                j <= all.len(),
                ids@ == ids_where(keep, next_bound(all, n, j as int)),
            decreases cands.len() - j,
        {
            let id = cands[j];
            proof {
                lemma_narrow(sup, keep, n, j as int);
            }
            let p = self.path_bytes(id);
            let hit = if inside {
                if match_case {
                    ends_with(p.as_slice(), core.as_slice())
                } else {
                    let f = fold(p.as_slice());
                    ends_with(f.as_slice(), core.as_slice())
                }
            } else {
                name_contains(p.as_slice(), needle, match_case)
            };
            assert(hit == keep(id as int));
            if hit {
                ids.push(id);
            }
            j = j + 1;
        }
        proof {
            lemma_ids_where(keep, n);
        }
        Some((ids, inside))
    }

    /// Shows everything beneath one anchor, marking what it comes by. Returns
    /// whether `limit` was reached.
    #[verifier::rlimit(60)]
    fn emit_below(
        &self,
        a: u32,
        with_self: bool,
        limit: usize,
        o: &SearchOpts,
        verify: &Vec<Vec<u8>>,
        out: &mut Vec<Vec<u8>>,
        marks: &mut Vec<bool>,
        Ghost(done0): Ghost<Seq<u32>>,
    ) -> (full: bool)
        requires
            self.wf(),
            self@.has(a),
            old(marks)@.len() == self@.nodes.len(),
            views(old(out)@) == paths_of(self@.nodes, done0),
            done0.len() < limit,
        ensures
            ({
                let items = walk(self@.nodes, o.hide_hidden, a, a).filter(
                    self@.shows(a, with_self, *o, views(verify@)),
                );
                &&& full ==> done0.len() + items.len() >= limit && views(final(out)@) == paths_of(
                    self@.nodes,
                    first(done0 + items, limit as int),
                )
                &&& !full ==> done0.len() + items.len() < limit && views(final(out)@) == paths_of(
                    self@.nodes,
                    done0 + items,
                )
            }),
            final(marks)@.len() == self@.nodes.len(),
            !full ==> forall|d: int|
                0 <= d < self@.nodes.len() ==> #[trigger] final(marks)@[d] == (old(marks)@[d]
                    || reach(self@.nodes, o.hide_hidden, a as int, d)),
    {
        let ghost v = self@;
        let ghost nodes = v.nodes;
        let ghost n = nodes.len();
        let ghost hide = o.hide_hidden;
        let ghost want = views(verify@);
        let ghost keep = v.shows(a, with_self, *o, want);
        let ghost total = done0 + walk(nodes, hide, a, a).filter(keep);
        let ghost mut done: Seq<u32> = done0;
        let ghost mut popped: Set<u32> = Set::empty();
        let mut stack: Vec<u32> = Vec::new();
        stack.push(a);
        proof {
            let s = stack@;
            assert(s.drop_last() =~= Seq::<u32>::empty());
            assert(s.last() == a);
            assert(pending(nodes, hide, a, s.drop_last()) =~= Seq::<u32>::empty());
            assert(pending(nodes, hide, a, s) =~= walk(nodes, hide, a, a));
            assert(s[0] == a);
            assert(views(out@).len() == out@.len());
        }
        while stack.len() > 0
            invariant
                self.wf(),
                limit > 0,
                v == self@,
                nodes == v.nodes,
                n == nodes.len(),
                hide == o.hide_hidden,
                want == views(verify@),
                keep == v.shows(a, with_self, *o, want),
                total == done0 + walk(nodes, hide, a, a).filter(keep),
                a < n,
                marks@.len() == n,
                forall|d: int|
                    0 <= d < n ==> #[trigger] marks@[d] == (old(marks)@[d] || popped.contains(
                        d as u32,
                    )),
                forall|d: u32| #[trigger]
                    popped.contains(d) ==> d < n && reach(nodes, hide, a as int, d as int),
                scheduled(nodes, hide, a, stack@),
                popped.contains(a) || stack@.contains(a),
                closed_under_walk(nodes, hide, a, popped, stack@),
                views(out@) == paths_of(nodes, done),
                out@.len() == done.len(),
                done.len() < limit,
                total == done + pending(nodes, hide, a, stack@).filter(keep),
            decreases pending(nodes, hide, a, stack@).len(), stack@.len(),
        {
            let ghost stack0 = stack@;
            let ghost popped0 = popped;
            let cur: u32 = match stack.pop() {
                Some(c) => c,
                None => 0,
            };
            let ghost rest = stack@;
            proof {
                assert(stack0[stack0.len() - 1] == cur);
                assert(rest =~= stack0.drop_last());
                popped = popped.insert(cur);
            }
            marks.set(cur as usize, true);
            if o.hide_hidden && cur != a && self.is_dotted(cur) {
                proof {
                    assert(walk(nodes, hide, a, cur) =~= Seq::<u32>::empty());
                    assert(pending(nodes, hide, a, stack0) =~= pending(nodes, hide, a, rest));
                    lemma_closed_leaf(nodes, hide, a, popped0, stack0);
                }
            } else {
                let ghost tail = walk_kids(nodes, hide, a, cur, 0) + pending(nodes, hide, a, rest);
                proof {
                    assert(pending(nodes, hide, a, stack0) =~= seq![cur] + tail);
                    Seq::filter_distributes_over_add(seq![cur], tail, keep);
                    lemma_filter_one(cur, keep);
                }
                let mut show = false;
                if (with_self || cur != a) && self.passes_kind(cur, o) {
                    let p = self.path_bytes(cur);
                    if Self::holds_all(p.as_slice(), verify, 0, o.match_case) {
                        show = true;
                        proof {
                            lemma_push_answer(nodes, out@, p, done, cur);
                        }
                        out.push(p);
                    }
                    assert(want.skip(0) =~= want);
                }
                proof {
                    assert(show == keep(cur));
                    if show {
                        assert(done + (seq![cur] + tail.filter(keep)) =~= done.push(cur)
                            + tail.filter(keep));
                        done = done.push(cur);
                    } else {
                        assert(Seq::<u32>::empty() + tail.filter(keep) =~= tail.filter(keep));
                    }
                    assert(total == done + tail.filter(keep));
                }
                if show && out.len() >= limit {
                    proof {
                        assert(first(total, limit as int) =~= done);
                    }
                    return true;
                }
                proof {
                    assert(kids_of(self.children@, cur) == child_ids(nodes, cur));
                    lemma_pending_kids(nodes, hide, a, rest, cur, 0);
                    assert(child_ids(nodes, cur).skip(0) =~= child_ids(nodes, cur));
                }
                let ghost kids = child_ids(nodes, cur);
                if let Some(list) = self.children.get(&cur) {
                    push_all_reversed(&mut stack, list);
                }
                proof {
                    assert(stack@ =~= rest + kids.reverse());
                    lemma_closed_folder(nodes, hide, a, popped0, stack0);
                }
            }
        }
        proof {
            assert(pending(nodes, hide, a, stack@).filter(keep) =~= Seq::<u32>::empty()) by {
                reveal(Seq::filter);
            }
            assert(total =~= done);
            assert forall|d: int| 0 <= d < n implies #[trigger] marks@[d] == (old(marks)@[d]
                || reach(nodes, hide, a as int, d)) by {
                if reach(nodes, hide, a as int, d) {
                    assert(stack@ =~= seq![]);
                    lemma_reach_popped(nodes, hide, a as int, popped, d);
                }
            }
        }
        false
    }

    /// Shows everything beneath each anchor, and the anchor itself where its
    /// flag says so. Every path shown must also hold each term of `verify`.
    pub fn emit_anchored(
        &self,
        anchors: &Vec<(u32, bool)>,
        limit: usize,
        o: &SearchOpts,
        verify: &Vec<Vec<u8>>,
    ) -> (out: Vec<Vec<u8>>)
        requires
            self.wf(),
            limit > 0,
            forall|k: int| 0 <= k < anchors@.len() ==> (#[trigger] anchors@[k]).0
                < self@.nodes.len(),
        ensures
            views(out@) == answers(
                self@.nodes,
                self@.shown(anchors@, *o, views(verify@)),
                limit as int,
            ),
    {
        let ghost v = self@;
        let ghost nodes = v.nodes;
        let ghost n = nodes.len();
        let ghost hide = o.hide_hidden;
        let ghost want = views(verify@);
        let ghost total = v.shown(anchors@, *o, want);
        let mut out: Vec<Vec<u8>> = Vec::new();
        let ghost mut done: Seq<u32> = Seq::empty();
        let ghost mut seen: Set<u32> = Set::empty();
        let mut marks: Vec<bool> = Vec::new();
        let mut i: usize = 0;
        while i < self.entries.len()
            invariant
                i <= self.entries.len(),
                marks@.len() == i,
                forall|d: int| 0 <= d < i ==> !#[trigger] marks@[d],
            decreases self.entries.len() - i,
        {
            marks.push(false);
            i = i + 1;
        }
        proof {
            assert(views(out@) =~= paths_of(nodes, done));
            assert(done + total =~= total);
        }
        let mut j: usize = 0;
        while j < anchors.len()
            invariant
                self.wf(),
                limit > 0,
                v == self@,
                nodes == v.nodes,
                n == nodes.len(),
                hide == o.hide_hidden,
                want == views(verify@),
                total == v.shown(anchors@, *o, want),
                forall|k: int|
                    0 <= k < anchors@.len() ==> (#[trigger] anchors@[k]).0 < self@.nodes.len(),
                j <= anchors.len(),
                marks@.len() == n,
                forall|d: int| 0 <= d < n ==> #[trigger] marks@[d] == seen.contains(d as u32),
                views(out@) == paths_of(nodes, done),
                done.len() < limit,
                total == done + v.shown_from(anchors@, j as int, seen, *o, want),
            decreases anchors.len() - j,
        {
            let (a, with_self) = anchors[j];
            assert(anchors@[j as int].0 < n);
            assert(marks@[a as int] == seen.contains(a));
            if !marks[a as usize] && !(o.hide_hidden && self.is_hidden(a)) {
                let ghost items = walk(nodes, hide, a, a).filter(v.shows(a, with_self, *o, want));
                let ghost next = seen.union(reached(nodes, hide, a));
                let ghost after = v.shown_from(anchors@, j + 1, next, *o, want);
                assert(total =~= (done + items) + after);
                if self.emit_below(
                    a,
                    with_self,
                    limit,
                    o,
                    verify,
                    &mut out,
                    &mut marks,
                    Ghost(done),
                ) {
                    proof {
                        assert(first(total, limit as int) =~= first(done + items, limit as int));
                    }
                    return out;
                }
                proof {
                    done = done + items;
                    seen = next;
                }
            }
            j = j + 1;
        }
        proof {
            assert(v.shown_from(anchors@, j as int, seen, *o, want) =~= Seq::<u32>::empty());
            assert(total =~= done);
        }
        out
    }

    /// Trigram-accelerated path search. `None` when the lists cannot tell; the
    /// caller then scans.
    pub fn search_path_trigram(&self, needle: &[u8], limit: usize, o: &SearchOpts) -> (r: Option<
        Vec<Vec<u8>>,
    >)
        requires
            self.wf(),
            limit > 0,
        ensures
            match self@.anchors(needle@, o.match_case) {
                None => r is None,
                Some((ids, strict)) => r matches Some(out) && views(out@) == answers(
                    self@.nodes,
                    self@.shown(flagged(ids, !strict), *o, seq![]),
                    limit as int,
                ),
            },
    {
        let (ids, strict) = match self.path_anchors(needle, o.match_case) {
            Some(a) => a,
            None => {
                return None;
            },
        };
        let mut list: Vec<(u32, bool)> = Vec::new();
        let mut k: usize = 0;
        while k < ids.len()
            invariant
                k <= ids.len(),
                list@.len() == k,
                forall|q: int| 0 <= q < k ==> #[trigger] list@[q] == (ids@[q], !strict),
            decreases ids.len() - k,
        {
            list.push((ids[k], !strict));
            k = k + 1;
        }
        assert(list@ =~= flagged(ids@, !strict));
        let none: Vec<Vec<u8>> = Vec::new();
        assert(views(none@) =~= Seq::<Seq<u8>>::empty());
        Some(self.emit_anchored(&list, limit, o, &none))
    }
}

} // verus!
