//! Searching by name and by path, entry after entry.

use vstd::prelude::*;
use vstd::utf8::valid_utf8;
use crate::bytes::{bytes_if, copy, occurs, views, DOT, SLASH};
use crate::fold::{effective, fold, fold_unit, folded, lemma_fold_occurs, name_contains, unit_len};
use crate::ids::{ids_where, lemma_ids_where, lemma_ids_where_prefix, lemma_narrow, next_bound};
use crate::index::{Index, IndexView};
use crate::kmp::{is_failure, is_state, kmp_failure, kmp_feed, lemma_initial_state};
use crate::options::{Kind, SearchOpts};
use crate::tree::{
    dotted, has_parent, hidden, lemma_effective_path, lemma_path_end, parents_first, path, piece,
    root_path, separator, Node, NO_PARENT,
};
use crate::trigram::{candidate, lemma_occurs_trigrams};

verus! {

/// How many terms are followed at once; any others are checked on the path.
pub const MAX_AUTOMATA: usize = 64;

/// The node is of the kind that is asked for.
pub open spec fn kind_ok(n: Node, kind: Kind) -> bool {
    match kind {
        Kind::All => true,
        Kind::Files => !n.is_dir,
        Kind::Folders => n.is_dir,
    }
}

impl IndexView {
    /// Alive and of the kind that is asked for.
    pub open spec fn passes(self, i: int, o: SearchOpts) -> bool {
        self.nodes[i].alive && kind_ok(self.nodes[i], o.kind)
    }

    /// Every filter: alive, kind, and, if asked for, not hidden.
    pub open spec fn accepts(self, i: int, o: SearchOpts) -> bool {
        self.passes(i, o) && !(o.hide_hidden && hidden(self.nodes, self.root, i))
    }

    /// The path of `i`, if it matched and no filter keeps it out.
    pub open spec fn shown_if(self, i: int, matched: bool, o: SearchOpts) -> Option<Seq<u8>> {
        if matched && self.accepts(i, o) {
            Some(path(self.nodes, i))
        } else {
            None
        }
    }

    /// The path of `i` as it is compared.
    pub open spec fn compared_path(self, i: int, match_case: bool) -> Seq<u8> {
        effective(path(self.nodes, i), match_case)
    }

    /// The name of `i` as it is compared.
    pub open spec fn compared_name(self, i: int, match_case: bool) -> Seq<u8> {
        effective(self.nodes[i].name, match_case)
    }

    /// Selects what a search for `needle` by name finds.
    pub open spec fn name_match(self, needle: Seq<u8>, o: SearchOpts) -> spec_fn(int) -> bool {
        |i: int| occurs(self.compared_name(i, o.match_case), needle) && self.accepts(i, o)
    }

    /// Selects what a search for `needle` by path finds.
    pub open spec fn path_match(self, needle: Seq<u8>, o: SearchOpts) -> spec_fn(int) -> bool {
        |i: int| occurs(self.compared_path(i, o.match_case), needle) && self.accepts(i, o)
    }

    /// Selects what a search for several terms finds.
    pub open spec fn terms_match(self, terms: Seq<Seq<u8>>, o: SearchOpts) -> spec_fn(int) -> bool {
        |i: int| all_occur(self.compared_path(i, o.match_case), terms) && self.accepts(i, o)
    }

    /// The ids that `keep` selects.
    pub open spec fn selected(self, keep: spec_fn(int) -> bool) -> Seq<u32> {
        ids_where(keep, self.nodes.len())
    }
}

/// Every term occurs in `hay`.
pub open spec fn all_occur(hay: Seq<u8>, terms: Seq<Seq<u8>>) -> bool {
    forall|t: int| 0 <= t < terms.len() ==> occurs(hay, #[trigger] terms[t])
}

/// The paths of a list of entries.
pub open spec fn paths_of(nodes: Seq<Node>, ids: Seq<u32>) -> Seq<Seq<u8>> {
    Seq::new(ids.len(), |k: int| path(nodes, ids[k] as int))
}

/// The first `limit` elements.
pub open spec fn first(ids: Seq<u32>, limit: int) -> Seq<u32> {
    if ids.len() <= limit {
        ids
    } else {
        ids.take(limit)
    }
}

/// What a search that finds `ids` returns: the paths of the first `limit`.
pub open spec fn answers(nodes: Seq<Node>, ids: Seq<u32>, limit: int) -> Seq<Seq<u8>> {
    paths_of(nodes, first(ids, limit))
}

/// Once `limit` ids are found, the rest of the scan changes nothing.
pub proof fn lemma_cut(keep: spec_fn(int) -> bool, b: nat, n: nat, limit: int)
    requires
        b <= n,
        ids_where(keep, b).len() == limit,
    ensures
        first(ids_where(keep, n), limit) == ids_where(keep, b),
{
    lemma_ids_where_prefix(keep, b, n);
    if ids_where(keep, n).len() <= limit {
        assert(ids_where(keep, n).take(limit) =~= ids_where(keep, n));
    }
}

/// One more answer.
pub proof fn lemma_push_answer(nodes: Seq<Node>, out: Seq<Vec<u8>>, p: Vec<u8>, ids: Seq<u32>, x: u32)
    requires
        views(out) == paths_of(nodes, ids),
        p@ == path(nodes, x as int),
    ensures
        views(out.push(p)) == paths_of(nodes, ids.push(x)),
{
    assert(views(out).len() == out.len());
    assert forall|k: int| 0 <= k < out.len() implies views(out.push(p))[k] == paths_of(
        nodes,
        ids.push(x),
    )[k] by {
        assert(views(out)[k] == paths_of(nodes, ids)[k]);
    }
    assert(views(out.push(p)) =~= paths_of(nodes, ids.push(x)));
}

/// One automaton run down the tree: for each entry so far, its state after
/// the entry's path, and whether the pattern occurs in that path.
pub struct PathScan {
    pub pat: Vec<u8>,
    pub fail: Vec<usize>,
    pub state: Vec<usize>,
    pub hit: Vec<bool>,
}

impl PathScan {
    pub open spec fn wf(self, v: IndexView, match_case: bool) -> bool {
        &&& self.pat@.len() > 0
        &&& is_failure(self.pat@, self.fail@)
        &&& self.state@.len() == self.hit@.len() <= v.nodes.len()
        &&& forall|j: int|
            0 <= j < self.state@.len() ==> is_state(
                self.pat@,
                v.compared_path(j, match_case),
                #[trigger] self.state@[j] as int,
            )
        &&& forall|j: int|
            0 <= j < self.hit@.len() ==> #[trigger] self.hit@[j] == occurs(
                v.compared_path(j, match_case),
                self.pat@,
            )
    }

    fn new(pat: &[u8], Ghost(v): Ghost<IndexView>, Ghost(match_case): Ghost<bool>) -> (s: PathScan)
        requires
            pat.len() > 0,
        ensures
            s.wf(v, match_case),
            s.pat@ == pat@,
            s.state@.len() == 0,
    {
        PathScan { pat: copy(pat), fail: kmp_failure(pat), state: Vec::new(), hit: Vec::new() }
    }

    /// Feeds the next entry: the separator before it, if there is one, and its
    /// own part of the path. A match anywhere in its parent's path is a match
    /// for it too.
    fn advance(
        &mut self,
        parent: u32,
        sep: bool,
        own: &[u8],
        Ghost(v): Ghost<IndexView>,
        Ghost(match_case): Ghost<bool>,
    )
        requires
            old(self).wf(v, match_case),
            parents_first(v.nodes),
            old(self).state@.len() < v.nodes.len(),
            parent == v.nodes[old(self).state@.len() as int].parent,
            (if parent == NO_PARENT {
                !sep && own@ == piece(v.nodes, old(self).state@.len() as int, match_case)
            } else {
                (if sep {
                    seq![SLASH]
                } else {
                    seq![]
                }) + own@ == piece(v.nodes, old(self).state@.len() as int, match_case)
            }),
        ensures
            final(self).wf(v, match_case),
            final(self).pat == old(self).pat,
            final(self).state@.len() == old(self).state@.len() + 1,
    {
        let ghost i = self.state@.len() as int;
        let ghost mut t: Seq<u8> = seq![];
        let mut k: usize = 0;
        let mut hit = false;
        proof {
            lemma_initial_state(self.pat@);
            assert(!occurs(t, self.pat@));
            lemma_effective_path(v.nodes, i, match_case);
        }
        if parent != NO_PARENT {
            proof {
                assert(v.nodes[i].parent < i);
                t = v.compared_path(parent as int, match_case);
                assert(is_state(self.pat@, t, self.state@[parent as int] as int));
                assert(self.hit@[parent as int] == occurs(t, self.pat@));
            }
            k = self.state[parent as usize];
            hit = self.hit[parent as usize];
        }
        let ghost start = t;
        if sep {
            let slash: [u8; 1] = [SLASH];
            let (next, found) = kmp_feed(
                self.pat.as_slice(),
                self.fail.as_slice(),
                k,
                slash.as_slice(),
            );
            k = next;
            hit = hit || found;
            proof {
                assert(slash@ =~= seq![SLASH]);
                t = t + seq![SLASH];
            }
        }
        let (next, found) = kmp_feed(self.pat.as_slice(), self.fail.as_slice(), k, own);
        proof {
            if parent == NO_PARENT {
                assert(t + own@ =~= own@);
            } else if sep {
                assert(t + own@ =~= start + (seq![SLASH] + own@));
            } else {
                assert(seq![] + own@ =~= own@);
            }
            assert(t + own@ == v.compared_path(i, match_case));
        }
        self.state.push(next);
        self.hit.push(hit || found);
    }
}

impl Index {
    /// Alive and of the requested kind.
    pub(crate) fn passes_kind(&self, id: u32, o: &SearchOpts) -> (r: bool)
        requires
            self.wf(),
            self@.has(id),
        ensures
            r == self@.passes(id as int, *o),
    {
        let e = &self.entries[id as usize];
        assert(self@.nodes[id as int] == e@);
        e.alive && match o.kind {
            Kind::All => true,
            Kind::Files => !e.is_dir,
            Kind::Folders => e.is_dir,
        }
    }

    /// Whether the name of `id` starts with a dot.
    pub(crate) fn is_dotted(&self, id: u32) -> (r: bool)
        requires
            self.wf(),
            self@.has(id),
        ensures
            r == dotted(self@.nodes[id as int].name),
    {
        let e = &self.entries[id as usize];
        assert(self@.nodes[id as int] == e@);
        e.name.len() > 0 && e.name[0] == DOT
    }

    /// True if the entry, or any ancestor below the index root, is a dotfile.
    pub(crate) fn is_hidden(&self, id: u32) -> (r: bool)
        requires
            self.wf(),
            self@.has(id),
        ensures
            r == hidden(self@.nodes, self@.root, id as int),
    {
        let ghost nodes = self@.nodes;
        let mut cur: u32 = id;
        while cur != NO_PARENT && cur != self.root
            invariant
                self.wf(),
                nodes == self@.nodes,
                cur == NO_PARENT || self@.has(cur),
                hidden(nodes, self@.root, id as int) == (cur != NO_PARENT && hidden(
                    nodes,
                    self@.root,
                    cur as int,
                )),
            decreases (if cur == NO_PARENT {
                0int
            } else {
                cur + 1
            }),
        {
            if self.is_dotted(cur) {
                return true;
            }
            assert(nodes[cur as int] == self.entries@[cur as int]@);
            cur = self.entries[cur as usize].parent;
        }
        false
    }

    /// Every filter: alive, kind, and (if requested) not hidden.
    pub(crate) fn accept(&self, id: u32, o: &SearchOpts) -> (r: bool)
        requires
            self.wf(),
            self@.has(id),
        ensures
            r == self@.accepts(id as int, *o),
    {
        self.passes_kind(id, o) && !(o.hide_hidden && self.is_hidden(id))
    }

    /// The path of `id`, if it matched and no filter keeps it out.
    pub fn accept_match(&self, id: u32, matched: bool, o: &SearchOpts) -> (r: Option<Vec<u8>>)
        requires
            self.wf(),
            self@.has(id),
        ensures
            bytes_if(r) == self@.shown_if(id as int, matched, *o),
    {
        if matched && self.accept(id, o) {
            Some(self.path_bytes(id))
        } else {
            None
        }
    }

    /// What entry `i` itself adds to a path, as it is compared.
    fn own_part(&self, i: usize, match_case: bool) -> (own: Vec<u8>)
        requires
            self.wf(),
            i < self@.nodes.len(),
        ensures
            own@ == (if has_parent(self@.nodes, i as int) {
                effective(self@.nodes[i as int].name, match_case)
            } else {
                effective(root_path(self@.nodes[i as int].name), match_case)
            }),
    {
        let e = &self.entries[i];
        assert(self@.nodes[i as int] == e@);
        if e.parent == NO_PARENT && e.name.len() == 0 {
            let mut own: Vec<u8> = Vec::new();
            own.push(SLASH);
            proof {
                let s = seq![SLASH];
                assert(own@ =~= s);
                assert(s.skip(1) =~= Seq::<u8>::empty());
                assert(unit_len(s) == 1);
                assert(fold_unit(s) =~= s);
                assert(folded(s.skip(1)) =~= Seq::<u8>::empty());
                assert(folded(s) =~= s);
            }
            return own;
        }
        if match_case {
            copy(e.name.as_slice())
        } else {
            fold(e.name.as_slice())
        }
    }

    /// Whether a separator stands between entry `i` and its parent.
    fn separated(&self, i: usize) -> (sep: bool)
        requires
            self.wf(),
            i < self@.nodes.len(),
        ensures
            sep == (has_parent(self@.nodes, i as int) && separator(
                path(self@.nodes, self@.nodes[i as int].parent as int),
            ) == seq![SLASH]),
            has_parent(self@.nodes, i as int) && !sep ==> separator(
                path(self@.nodes, self@.nodes[i as int].parent as int),
            ) == Seq::<u8>::empty(),
    {
        assert(self@.nodes[i as int] == self.entries@[i as int]@);
        let parent = self.entries[i].parent;
        if parent == NO_PARENT {
            return false;
        }
        let above = &self.entries[parent as usize];
        assert(self@.nodes[parent as int] == above@);
        proof {
            lemma_path_end(self@.nodes, parent as int);
            crate::tree::lemma_path_nonempty(self@.nodes, parent as int);
            assert(seq![SLASH].len() == 1);
        }
        above.name.len() > 0 && above.name[above.name.len() - 1] != SLASH
    }

    /// Search by name. `needle` is folded already unless case counts.
    pub fn search_name(&self, needle: &[u8], limit: usize, o: &SearchOpts) -> (out: Vec<Vec<u8>>)
        requires
            self.wf(),
            limit > 0,
            o.match_case ==> valid_utf8(needle@),
        ensures
            views(out@) == answers(
                self@.nodes,
                self@.selected(self@.name_match(needle@, *o)),
                limit as int,
            ),
    {
        let ghost v = self@;
        let ghost nodes = v.nodes;
        let ghost n = nodes.len();
        let ghost keep = v.name_match(needle@, *o);
        let mut out: Vec<Vec<u8>> = Vec::new();
        if self.trigrams_built {
            let key = if o.match_case {
                fold(needle)
            } else {
                copy(needle)
            };
            if key.len() >= 3 {
                proof {
                    assert forall|i: int| 0 <= i < n && #[trigger] keep(i) implies candidate(
                        nodes,
                        key@,
                    )(i) by {
                        if o.match_case {
                            lemma_fold_occurs(nodes[i].name, needle@);
                        }
                        lemma_occurs_trigrams(folded(nodes[i].name), key@);
                    }
                    lemma_ids_where(candidate(nodes, key@), n);
                }
                let cands = match self.trigram_candidates(key.as_slice()) {
                    Some(c) => c,
                    None => Vec::new(),
                };
                let ghost sup = candidate(nodes, key@);
                let ghost all = ids_where(sup, n);
                proof {
                    assert(cands@ == all);
                    lemma_narrow(sup, keep, n, 0);
                    assert(views(out@) =~= paths_of(nodes, Seq::empty()));
                }
                let mut j: usize = 0;
                while j < cands.len()
                    invariant
                        self.wf(),
                        v == self@,
                        nodes == v.nodes,
                        n == nodes.len(),
                        limit > 0,
                        keep == v.name_match(needle@, *o),
                        cands@ == all,
                        all == ids_where(sup, n),
                        forall|i: int| 0 <= i < n && #[trigger] keep(i) ==> sup(i),
                        j <= all.len(),
                        views(out@) == paths_of(
                            nodes,
                            ids_where(keep, next_bound(all, n, j as int)),
                        ),
                        out@.len() < limit,
                    decreases cands.len() - j,
                {
                    let id = cands[j];
                    let ghost x = id as int;
                    proof {
                        lemma_narrow(sup, keep, n, j as int);
                        assert(views(out@).len() == out@.len());
                    }
                    let matched = name_contains(
                        self.entries[id as usize].name.as_slice(),
                        needle,
                        o.match_case,
                    );
                    assert(nodes[x] == self.entries@[x]@);
                    let ghost before = out@;
                    if let Some(p) = self.accept_match(id, matched, o) {
                        out.push(p);
                        proof {
                            assert(keep(x));
                            lemma_push_answer(
                                nodes,
                                before,
                                p,
                                ids_where(keep, next_bound(all, n, j as int)),
                                id,
                            );
                        }
                    } else {
                        assert(!keep(x));
                    }
                    if out.len() >= limit {
                        proof {
                            assert(views(out@).len() == out@.len());
                            lemma_cut(keep, (x + 1) as nat, n, limit as int);
                        }
                        return out;
                    }
                    j = j + 1;
                }
                proof {
                    assert(views(out@).len() == out@.len());
                }
                return out;
            }
        }
        let mut i: usize = 0;
        assert(views(out@) =~= paths_of(nodes, ids_where(keep, 0)));
        while i < self.entries.len()
            invariant
                self.wf(),
                v == self@,
                nodes == v.nodes,
                n == nodes.len(),
                limit > 0,
                keep == v.name_match(needle@, *o),
                i <= n,
                views(out@) == paths_of(nodes, ids_where(keep, i as nat)),
                out@.len() < limit,
            decreases self.entries.len() - i,
        {
            let matched = name_contains(self.entries[i].name.as_slice(), needle, o.match_case);
            assert(nodes[i as int] == self.entries@[i as int]@);
            let ghost before = out@;
            if let Some(p) = self.accept_match(i as u32, matched, o) {
                out.push(p);
                proof {
                    assert(keep(i as int));
                    lemma_push_answer(nodes, before, p, ids_where(keep, i as nat), i as u32);
                }
            } else {
                assert(!keep(i as int));
            }
            if out.len() >= limit {
                proof {
                    assert(views(before).len() == before.len());
                    assert(views(out@).len() == out@.len());
                    lemma_cut(keep, (i + 1) as nat, n, limit as int);
                }
                return out;
            }
            i = i + 1;
        }
        proof {
            assert(views(out@).len() == out@.len());
        }
        out
    }

    /// Path search without ever building a path: one automaton is run down the
    /// tree. Each entry inherits its parent's state and feeds only its own
    /// name. Entries are visited in arena order, so a parent comes first.
    pub fn search_path(&self, needle: &[u8], limit: usize, o: &SearchOpts) -> (out: Vec<Vec<u8>>)
        requires
            self.wf(),
            limit > 0,
            needle.len() > 0,
        ensures
            views(out@) == answers(
                self@.nodes,
                self@.selected(self@.path_match(needle@, *o)),
                limit as int,
            ),
    {
        let ghost v = self@;
        let ghost nodes = v.nodes;
        let ghost n = nodes.len();
        let ghost keep = v.path_match(needle@, *o);
        let mut out: Vec<Vec<u8>> = Vec::new();
        let mut scan = PathScan::new(needle, Ghost(v), Ghost(o.match_case));
        let mut i: usize = 0;
        assert(views(out@) =~= paths_of(nodes, ids_where(keep, 0)));
        while i < self.entries.len()
            invariant
                self.wf(),
                v == self@,
                nodes == v.nodes,
                n == nodes.len(),
                limit > 0,
                keep == v.path_match(needle@, *o),
                i <= n,
                scan.wf(v, o.match_case),
                scan.pat@ == needle@,
                scan.state@.len() == i,
                views(out@) == paths_of(nodes, ids_where(keep, i as nat)),
                out@.len() < limit,
            decreases self.entries.len() - i,
        {
            let own = self.own_part(i, o.match_case);
            let sep = self.separated(i);
            assert(nodes[i as int] == self.entries@[i as int]@);
            scan.advance(
                self.entries[i].parent,
                sep,
                own.as_slice(),
                Ghost(v),
                Ghost(o.match_case),
            );
            let ghost before = out@;
            if let Some(p) = self.accept_match(i as u32, scan.hit[i], o) {
                out.push(p);
                proof {
                    assert(keep(i as int));
                    lemma_push_answer(nodes, before, p, ids_where(keep, i as nat), i as u32);
                }
            } else {
                assert(!keep(i as int));
            }
            if out.len() >= limit {
                proof {
                    assert(views(before).len() == before.len());
                    assert(views(out@).len() == out@.len());
                    lemma_cut(keep, (i + 1) as nat, n, limit as int);
                }
                return out;
            }
            i = i + 1;
        }
        proof {
            assert(views(out@).len() == out@.len());
        }
        out
    }

    /// Whether every term from `from` on occurs in the path `p`.
    pub(crate) fn holds_all(p: &[u8], terms: &Vec<Vec<u8>>, from: usize, match_case: bool) -> (r:
        bool)
        requires
            from <= terms.len(),
        ensures
            r == all_occur(
                effective(p@, match_case),
                views(terms@).skip(from as int),
            ),
    {
        let ghost want = views(terms@).skip(from as int);
        let mut t: usize = from;
        while t < terms.len()
            invariant
                from <= t <= terms.len(),
                want == views(terms@).skip(from as int),
                forall|k: int|
                    0 <= k < t - from ==> occurs(effective(p@, match_case), #[trigger] want[k]),
            decreases terms.len() - t,
        {
            assert(want[t - from] == terms@[t as int]@);
            if !name_contains(p, terms[t].as_slice(), match_case) {
                return false;
            }
            t = t + 1;
        }
        true
    }

    /// Multi-term search without the trigram lists: one automaton per term, run
    /// down the tree together.
    pub fn search_multi_scan(
        &self,
        terms: &Vec<Vec<u8>>,
        limit: usize,
        o: &SearchOpts,
    ) -> (out: Vec<Vec<u8>>)
        requires
            self.wf(),
            limit > 0,
            forall|t: int| 0 <= t < terms@.len() ==> (#[trigger] terms@[t])@.len() > 0,
        ensures
            views(out@) == answers(
                self@.nodes,
                self@.selected(self@.terms_match(views(terms@), *o)),
                limit as int,
            ),
    {
        let ghost v = self@;
        let ghost nodes = v.nodes;
        let ghost n = nodes.len();
        let ghost want = views(terms@);
        let ghost keep = v.terms_match(want, *o);
        let k: usize = if terms.len() < MAX_AUTOMATA {
            terms.len()
        } else {
            MAX_AUTOMATA
        };
        let mut scans: Vec<PathScan> = Vec::new();
        let mut t: usize = 0;
        while t < k
            invariant
                t <= k <= terms.len(),
                forall|q: int| 0 <= q < terms@.len() ==> (#[trigger] terms@[q])@.len() > 0,
                scans@.len() == t,
                forall|q: int|
                    0 <= q < t ==> (#[trigger] scans@[q]).wf(v, o.match_case) && scans@[q].pat@
                        == terms@[q]@ && scans@[q].state@.len() == 0,
            decreases k - t,
        {
            scans.push(PathScan::new(terms[t].as_slice(), Ghost(v), Ghost(o.match_case)));
            t = t + 1;
        }
        let mut out: Vec<Vec<u8>> = Vec::new();
        let mut i: usize = 0;
        assert(views(out@) =~= paths_of(nodes, ids_where(keep, 0)));
        while i < self.entries.len()
            invariant
                self.wf(),
                v == self@,
                nodes == v.nodes,
                n == nodes.len(),
                limit > 0,
                want == views(terms@),
                keep == v.terms_match(want, *o),
                i <= n,
                k <= terms.len(),
                scans@.len() == k,
                forall|q: int|
                    0 <= q < k ==> (#[trigger] scans@[q]).wf(v, o.match_case) && scans@[q].pat@
                        == terms@[q]@ && scans@[q].state@.len() == i,
                views(out@) == paths_of(nodes, ids_where(keep, i as nat)),
                out@.len() < limit,
            decreases self.entries.len() - i,
        {
            let own = self.own_part(i, o.match_case);
            let sep = self.separated(i);
            let parent = self.entries[i].parent;
            assert(nodes[i as int] == self.entries@[i as int]@);
            let ghost cp = v.compared_path(i as int, o.match_case);
            let mut all = true;
            let mut t: usize = 0;
            while t < k
                invariant
                    self.wf(),
                    v == self@,
                    nodes == v.nodes,
                    i < nodes.len(),
                    parent == nodes[i as int].parent,
                    own@ == (if has_parent(nodes, i as int) {
                        effective(nodes[i as int].name, o.match_case)
                    } else {
                        effective(root_path(nodes[i as int].name), o.match_case)
                    }),
                    sep == (has_parent(nodes, i as int) && separator(
                        path(nodes, nodes[i as int].parent as int),
                    ) == seq![SLASH]),
                    has_parent(nodes, i as int) && !sep ==> separator(
                        path(nodes, nodes[i as int].parent as int),
                    ) == Seq::<u8>::empty(),
                    cp == v.compared_path(i as int, o.match_case),
                    t <= k <= terms.len(),
                    scans@.len() == k,
                    forall|q: int|
                        0 <= q < k ==> (#[trigger] scans@[q]).wf(v, o.match_case) && scans@[q].pat@
                            == terms@[q]@ && scans@[q].state@.len() == (if q < t {
                            i + 1
                        } else {
                            i as int
                        }),
                    all <==> (forall|q: int| 0 <= q < t ==> occurs(cp, (#[trigger] terms@[q])@)),
                decreases k - t,
            {
                assert(scans@[t as int].wf(v, o.match_case));
                scans[t].advance(parent, sep, own.as_slice(), Ghost(v), Ghost(o.match_case));
                assert(scans@[t as int].wf(v, o.match_case));
                if !scans[t].hit[i] {
                    all = false;
                    assert(!occurs(cp, terms@[t as int]@));
                }
                t = t + 1;
            }
            let ghost before = out@;
            let mut matched = false;
            if all {
                let p = self.path_bytes(i as u32);
                matched = Self::holds_all(p.as_slice(), terms, k, o.match_case);
            }
            proof {
                assert(matched == all_occur(cp, want)) by {
                    if all_occur(cp, want) {
                        assert forall|q: int| 0 <= q < k implies occurs(
                            cp,
                            (#[trigger] terms@[q])@,
                        ) by {
                            assert(occurs(cp, want[q]));
                        }
                        assert forall|q: int| 0 <= q < want.skip(k as int).len() implies occurs(
                            cp,
                            #[trigger] want.skip(k as int)[q],
                        ) by {
                            assert(occurs(cp, want[q + k]));
                        }
                    }
                    if matched {
                        assert forall|q: int| 0 <= q < want.len() implies occurs(
                            cp,
                            #[trigger] want[q],
                        ) by {
                            if q < k {
                                assert(occurs(cp, terms@[q]@));
                            } else {
                                assert(occurs(cp, want.skip(k as int)[q - k]));
                            }
                        }
                    }
                }
            }
            if let Some(p) = self.accept_match(i as u32, matched, o) {
                out.push(p);
                proof {
                    assert(keep(i as int));
                    lemma_push_answer(nodes, before, p, ids_where(keep, i as nat), i as u32);
                }
            } else {
                assert(!keep(i as int));
            }
            if out.len() >= limit {
                proof {
                    assert(views(before).len() == before.len());
                    assert(views(out@).len() == out@.len());
                    lemma_cut(keep, (i + 1) as nat, n, limit as int);
                }
                return out;
            }
            i = i + 1;
        }
        proof {
            assert(views(out@).len() == out@.len());
        }
        out
    }
}

} // verus!
