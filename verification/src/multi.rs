//! Several terms, all of which must occur somewhere in the full path.

use vstd::prelude::*;
use std::collections::HashSet;
use vstd::utf8::valid_utf8;
use crate::anchored::lookup_key;
use crate::bytes::{copy, occurs, views, SLASH};
use crate::fold::{fold, folded, lemma_fold_occurs, name_contains};
use crate::ids::{
    ascending, ids_where, lemma_ids_where, lemma_ids_where_contains, lemma_ids_where_unique,
    lemma_narrow, merge, next_bound,
};
use crate::index::{Index, IndexView};
use crate::options::SearchOpts;
use crate::search::{answers, paths_of, MAX_AUTOMATA};
use crate::tree::{has_parent, NO_PARENT};
use crate::trigram::{candidate, lemma_occurs_trigrams};

verus! {

impl IndexView {
    /// The entries at which `t` ends.
    pub open spec fn anchor_ids(self, t: Seq<u8>, match_case: bool) -> Seq<u32> {
        match self.anchors(t, match_case) {
            Some((ids, _)) => ids,
            None => seq![],
        }
    }

    /// `t` matches only strictly beneath the entries at which it ends.
    pub open spec fn anchor_strict(self, t: Seq<u8>, match_case: bool) -> bool {
        match self.anchors(t, match_case) {
            Some((_, strict)) => strict,
            None => false,
        }
    }

    /// The trigram lists can tell where `t` occurs.
    pub open spec fn term_indexed(self, t: Seq<u8>, match_case: bool) -> bool {
        if t.contains(SLASH) {
            self.anchors(t, match_case) is Some
        } else {
            lookup_key(t, match_case).len() >= 3
        }
    }

    /// `t` matches at entry `i`: its name holds `t`, or for a term with a
    /// separator, `t` ends there.
    pub open spec fn term_hit(self, t: Seq<u8>, match_case: bool, i: int) -> bool {
        if t.contains(SLASH) {
            self.anchor_ids(t, match_case).contains(i as u32)
        } else {
            occurs(self.compared_name(i, match_case), t)
        }
    }

    /// `t` matches only strictly beneath the entries at which it ends.
    pub open spec fn term_strict(self, t: Seq<u8>, match_case: bool) -> bool {
        t.contains(SLASH) && self.anchor_strict(t, match_case)
    }

    /// `t` matches at `d` or at a folder above it.
    pub open spec fn chain_hit(self, t: Seq<u8>, match_case: bool, d: int) -> bool
        decreases d,
    {
        self.term_hit(t, match_case, d) || (has_parent(self.nodes, d) && self.chain_hit(
            t,
            match_case,
            self.nodes[d].parent as int,
        ))
    }

    /// The path of `d` itself satisfies `t`.
    pub open spec fn hit_for_self(self, t: Seq<u8>, match_case: bool, d: int) -> bool {
        if self.term_strict(t, match_case) {
            has_parent(self.nodes, d) && self.chain_hit(t, match_case, self.nodes[d].parent as int)
        } else {
            self.chain_hit(t, match_case, d)
        }
    }

    /// Term `q` is looked up in the trigram lists.
    pub open spec fn looked_up(self, terms: Seq<Seq<u8>>, match_case: bool, q: int) -> bool {
        0 <= q < terms.len() && q < MAX_AUTOMATA && self.term_indexed(terms[q], match_case)
    }

    /// Some term is looked up in the trigram lists.
    pub open spec fn any_looked_up(self, terms: Seq<Seq<u8>>, match_case: bool) -> bool {
        exists|q: int| #[trigger] self.looked_up(terms, match_case, q)
    }

    /// Of the first `k` terms, those that are checked on each path instead.
    pub open spec fn checked_terms(self, terms: Seq<Seq<u8>>, match_case: bool, k: nat) -> Seq<
        Seq<u8>,
    >
        decreases k,
    {
        if k == 0 {
            seq![]
        } else {
            let before = self.checked_terms(terms, match_case, (k - 1) as nat);
            if self.looked_up(terms, match_case, k - 1) {
                before
            } else {
                before.push(terms[k - 1])
            }
        }
    }

    /// Selects the entries at which one of the first `k` terms matches.
    pub open spec fn some_hit(self, terms: Seq<Seq<u8>>, match_case: bool, k: int) -> spec_fn(
        int,
    ) -> bool {
        |i: int|
            exists|q: int|
                q < k && #[trigger] self.looked_up(terms, match_case, q) && self.term_hit(
                    terms[q],
                    match_case,
                    i,
                )
    }

    /// The chain of `i` satisfies every term that is looked up.
    pub open spec fn chain_ok(self, terms: Seq<Seq<u8>>, match_case: bool, i: int) -> bool {
        forall|q: int| #[trigger]
            self.looked_up(terms, match_case, q) ==> self.chain_hit(terms[q], match_case, i)
    }

    /// The path of `i` itself satisfies every term that is looked up.
    pub open spec fn self_ok(self, terms: Seq<Seq<u8>>, match_case: bool, i: int) -> bool {
        forall|q: int| #[trigger]
            self.looked_up(terms, match_case, q) ==> self.hit_for_self(terms[q], match_case, i)
    }

    /// Selects the entries beneath which every term that is looked up is
    /// satisfied, and at which one of them matches.
    pub open spec fn multi_anchor(self, terms: Seq<Seq<u8>>, match_case: bool) -> spec_fn(
        int,
    ) -> bool {
        |i: int|
            self.some_hit(terms, match_case, terms.len() as int)(i) && self.chain_ok(
                terms,
                match_case,
                i,
            )
    }

    /// The anchors of a query of several terms.
    pub open spec fn multi_anchors(self, terms: Seq<Seq<u8>>, match_case: bool) -> Seq<
        (u32, bool),
    > {
        let ids = self.selected(self.multi_anchor(terms, match_case));
        Seq::new(ids.len(), |k: int| (ids[k], self.self_ok(terms, match_case, ids[k] as int)))
    }

    /// What a search for several terms finds, in order.
    pub open spec fn multi_ids(self, terms: Seq<Seq<u8>>, o: SearchOpts) -> Seq<u32> {
        if !self.indexed || self.root == NO_PARENT || !self.any_looked_up(terms, o.match_case) {
            self.selected(self.terms_match(terms, o))
        } else {
            self.shown(
                self.multi_anchors(terms, o.match_case),
                o,
                self.checked_terms(terms, o.match_case, terms.len()),
            )
        }
    }
}

/// Where a term matches nowhere, no chain satisfies it.
proof fn lemma_no_chain(v: IndexView, t: Seq<u8>, match_case: bool, d: int)
    requires
        forall|i: int| 0 <= i < v.nodes.len() ==> !#[trigger] v.term_hit(t, match_case, i),
        0 <= d < v.nodes.len(),
    ensures
        !v.chain_hit(t, match_case, d),
    decreases d,
{
    assert(!v.term_hit(t, match_case, d));
    if has_parent(v.nodes, d) {
        lemma_no_chain(v, t, match_case, v.nodes[d].parent as int);
    }
}

/// A term that matches nowhere leaves nothing to show.
proof fn lemma_unmatched(v: IndexView, terms: Seq<Seq<u8>>, o: SearchOpts, q: int)
    requires
        v.indexed,
        v.root != NO_PARENT,
        v.nodes.len() <= NO_PARENT,
        v.looked_up(terms, o.match_case, q),
        forall|i: int|
            0 <= i < v.nodes.len() ==> !#[trigger] v.term_hit(terms[q], o.match_case, i),
    ensures
        v.multi_ids(terms, o) == Seq::<u32>::empty(),
{
    let keep = v.multi_anchor(terms, o.match_case);
    let ids = v.selected(keep);
    lemma_ids_where(keep, v.nodes.len());
    if ids.len() > 0 {
        assert(keep(ids[0] as int));
        lemma_no_chain(v, terms[q], o.match_case, ids[0] as int);
        assert(v.chain_hit(terms[q], o.match_case, ids[0] as int));
    }
    assert(v.multi_anchors(terms, o.match_case) =~= Seq::<(u32, bool)>::empty());
}

/// One term that is looked up. `set` holds the entries at which a term with a
/// separator ends; a plain term matches at the names that hold it.
pub struct MultiTerm {
    pub text: Vec<u8>,
    pub strict: bool,
    pub set: Option<HashSet<u32>>,
}

impl MultiTerm {
    pub open spec fn wf(self, v: IndexView, match_case: bool) -> bool {
        &&& self.strict == v.term_strict(self.text@, match_case)
        &&& match self.set {
            Some(s) => self.text@.contains(SLASH) && forall|x: u32| #[trigger]
                s@.contains(x) <==> v.anchor_ids(self.text@, match_case).contains(x),
            None => !self.text@.contains(SLASH),
        }
    }
}

/// Whether `t` holds a separator.
pub fn has_slash(t: &[u8]) -> (r: bool)
    ensures
        r == t@.contains(SLASH),
{
    let mut i: usize = 0;
    while i < t.len()
        invariant
            i <= t.len(),
            forall|k: int| 0 <= k < i ==> t@[k] != SLASH,
        decreases t.len() - i,
    {
        if t[i] == SLASH {
            assert(t@[i as int] == SLASH);
            return true;
        }
        i = i + 1;
    }
    false
}

/// The set of the elements of `ids`.
fn set_of(ids: &Vec<u32>) -> (s: HashSet<u32>)
    ensures
        forall|x: u32| #[trigger] s@.contains(x) <==> ids@.contains(x),
{
    let mut s: HashSet<u32> = HashSet::new();
    let mut k: usize = 0;
    while k < ids.len()
        invariant
            k <= ids.len(),
            forall|x: u32| #[trigger] s@.contains(x) <==> ids@.take(k as int).contains(x),
        decreases ids.len() - k,
    {
        let ghost before = s@;
        s.insert(ids[k]);
        proof {
            assert(ids@.take(k + 1) =~= ids@.take(k as int).push(ids@[k as int]));
            assert forall|x: u32| #[trigger] s@.contains(x) <==> ids@.take(k + 1).contains(x) by {
                crate::ids::lemma_push_contains(ids@.take(k as int), ids@[k as int], x);
                assert(before.contains(x) <==> ids@.take(k as int).contains(x));
            }
        }
        k = k + 1;
    }
    assert(ids@.take(k as int) =~= ids@);
    s
}

impl Index {
    /// Whether the chain of `h` satisfies `term`: for `h` itself, and for its
    /// strict descendants. The two differ only for a term ending in a
    /// separator, which needs a match strictly above the entry.
    fn chain_sat(&self, term: &MultiTerm, h: u32, match_case: bool) -> (r: (bool, bool))
        requires
            self.wf(),
            self@.has(h),
            term.wf(self@, match_case),
        ensures
            r.0 == self@.hit_for_self(term.text@, match_case, h as int),
            r.1 == self@.chain_hit(term.text@, match_case, h as int),
    {
        let ghost v = self@;
        let ghost t = term.text@;
        let mut cur: u32 = h;
        let mut here = false;
        while cur != NO_PARENT
            invariant
                self.wf(),
                v == self@,
                t == term.text@,
                term.wf(v, match_case),
                v.has(h),
                cur == NO_PARENT || v.has(cur),
                (if cur == h {
                    !here
                } else {
                    here == v.term_hit(t, match_case, h as int) && (here ==> term.strict)
                        && has_parent(v.nodes, h as int) == (v.nodes[h as int].parent != NO_PARENT)
                        && (has_parent(v.nodes, h as int) && v.chain_hit(
                        t,
                        match_case,
                        v.nodes[h as int].parent as int,
                    )) == (cur != NO_PARENT && v.chain_hit(t, match_case, cur as int)) && (cur
                        != NO_PARENT ==> has_parent(v.nodes, h as int) && cur < h)
                }),
            decreases (if cur == NO_PARENT {
                0int
            } else {
                cur + 1
            }),
        {
            assert(v.nodes[cur as int] == self.entries@[cur as int]@);
            let hit = match &term.set {
                Some(s) => s.contains(&cur),
                None => name_contains(
                    self.entries[cur as usize].name.as_slice(),
                    term.text.as_slice(),
                    match_case,
                ),
            };
            assert(hit == v.term_hit(t, match_case, cur as int));
            if hit {
                if cur != h || !term.strict {
                    return (true, true);
                }
                here = true;
            }
            cur = self.entries[cur as usize].parent;
        }
        (false, here)
    }

    /// The entries whose name holds `t`, through the trigram lists.
    fn name_hits(&self, t: &[u8], key: &[u8], match_case: bool) -> (out: Vec<u32>)
        requires
            self.wf(),
            self.trigrams_built,
            match_case ==> valid_utf8(t@),
            key@ == lookup_key(t@, match_case),
            key.len() >= 3,
        ensures
            out@ == self@.selected(|i: int| occurs(self@.compared_name(i, match_case), t@)),
    {
        let ghost v = self@;
        let ghost nodes = v.nodes;
        let ghost n = nodes.len();
        let ghost keep = |i: int| occurs(v.compared_name(i, match_case), t@);
        let ghost sup = candidate(nodes, key@);
        proof {
            assert forall|i: int| 0 <= i < n && #[trigger] keep(i) implies sup(i) by {
                if match_case {
                    lemma_fold_occurs(nodes[i].name, t@);
                }
                lemma_occurs_trigrams(folded(nodes[i].name), key@);
            }
        }
        let ghost all = ids_where(sup, n);
        let cands = match self.trigram_candidates(key) {
            Some(c) => c,
            None => Vec::new(),
        };
        let mut out: Vec<u32> = Vec::new();
        proof {
            assert(cands@ == all);
            lemma_narrow(sup, keep, n, 0);
        }
        let mut j: usize = 0;
        while j < cands.len()
            invariant
                self.wf(),
                v == self@,
                nodes == v.nodes,
                n == nodes.len(),
                keep == (|i: int| occurs(v.compared_name(i, match_case), t@)),
                cands@ == all,
                all == ids_where(sup, n),
                forall|i: int| 0 <= i < n && #[trigger] keep(i) ==> sup(i),
                j <= all.len(),
                out@ == ids_where(keep, next_bound(all, n, j as int)),
            decreases cands.len() - j,
        {
            let id = cands[j];
            proof {
                lemma_narrow(sup, keep, n, j as int);
            }
            assert(nodes[id as int] == self.entries@[id as int]@);
            let hit = name_contains(self.entries[id as usize].name.as_slice(), t, match_case);
            assert(hit == keep(id as int));
            if hit {
                out.push(id);
            }
            j = j + 1;
        }
        out
    }

    /// Where term `t` matches, if the trigram lists can tell.
    fn look_up(&self, t: &[u8], match_case: bool) -> (r: Option<(Vec<u32>, MultiTerm)>)
        requires
            self.wf(),
            self.trigrams_built,
            self.root != NO_PARENT,
            match_case ==> valid_utf8(t@),
        ensures
            r is Some <==> self@.term_indexed(t@, match_case),
            r matches Some((ids, term)) ==> {
                &&& term.text@ == t@
                &&& term.wf(self@, match_case)
                &&& ascending(ids@)
                &&& forall|x: u32| #[trigger]
                    ids@.contains(x) ==> x < self@.nodes.len() && self@.term_hit(
                        t@,
                        match_case,
                        x as int,
                    )
                &&& forall|i: int|
                    0 <= i < self@.nodes.len() && #[trigger] self@.term_hit(t@, match_case, i)
                        ==> ids@.contains(i as u32)
            },
    {
        if has_slash(t) {
            match self.path_anchors(t, match_case) {
                Some((ids, strict)) => {
                    let set = set_of(&ids);
                    proof {
                        assert forall|x: u32| #[trigger] ids@.contains(x) implies x
                            < self@.nodes.len() by {
                            let k = choose|k: int| 0 <= k < ids@.len() && ids@[k] == x;
                            assert(ids@[k] < self@.nodes.len());
                        }
                    }
                    Some((ids, MultiTerm { text: copy(t), strict, set: Some(set) }))
                },
                None => None,
            }
        } else {
            let key = if match_case {
                fold(t)
            } else {
                copy(t)
            };
            if key.len() < 3 {
                return None;
            }
            let ids = self.name_hits(t, key.as_slice(), match_case);
            proof {
                let keep = |i: int| occurs(self@.compared_name(i, match_case), t@);
                lemma_ids_where(keep, self@.nodes.len());
                assert forall|x: u32| #[trigger] ids@.contains(x) implies x < self@.nodes.len()
                    && self@.term_hit(t@, match_case, x as int) by {
                    lemma_ids_where_contains(keep, self@.nodes.len(), x);
                    assert(keep(x as int));
                }
                assert forall|i: int|
                    0 <= i < self@.nodes.len() && #[trigger] self@.term_hit(
                        t@,
                        match_case,
                        i,
                    ) implies ids@.contains(i as u32) by {
                    assert(keep(i));
                }
            }
            Some((ids, MultiTerm { text: copy(t), strict: false, set: None }))
        }
    }

    /// Several terms, all of which must occur somewhere in the full path.
    ///
    /// Each term long enough for the trigram lists yields the entries at which
    /// it matches. If an entry satisfies every such term, the deepest of those
    /// matches lies on its chain and already has every term on its own chain:
    /// only matches need checking, and only the subtrees of those that pass are
    /// walked. Shorter terms are checked on each path instead; with no longer
    /// term at all, the tree is scanned.
    #[verifier::rlimit(40)]
    pub fn search_multi(&self, terms: &Vec<Vec<u8>>, limit: usize, o: &SearchOpts) -> (out: Vec<
        Vec<u8>,
    >)
        requires
            self.wf(),
            limit > 0,
            forall|t: int| 0 <= t < terms@.len() ==> (#[trigger] terms@[t])@.len() > 0,
            o.match_case ==> forall|t: int|
                0 <= t < terms@.len() ==> valid_utf8((#[trigger] terms@[t])@),
        ensures
            views(out@) == answers(
                self@.nodes,
                self@.multi_ids(views(terms@), *o),
                limit as int,
            ),
    {
        if !self.trigrams_built || self.root == NO_PARENT {
            return self.search_multi_scan(terms, limit, o);
        }
        let ghost v = self@;
        let ghost n = v.nodes.len();
        let ghost want = views(terms@);
        let cs = o.match_case;
        let mut indexed: Vec<MultiTerm> = Vec::new();
        let mut verify: Vec<Vec<u8>> = Vec::new();
        let mut hits: Vec<u32> = Vec::new();
        // Which term each element of `indexed` is.
        let ghost mut which: Seq<int> = Seq::empty();
        let mut t: usize = 0;
        assert(views(verify@) =~= v.checked_terms(want, cs, 0));
        while t < terms.len()
            invariant
                self.wf(),
                self.trigrams_built,
                self.root != NO_PARENT,
                v == self@,
                n == v.nodes.len(),
                want == views(terms@),
                cs == o.match_case,
                cs ==> forall|q: int|
                    0 <= q < terms@.len() ==> valid_utf8((#[trigger] terms@[q])@),
                t <= terms.len(),
                views(verify@) == v.checked_terms(want, cs, t as nat),
                which.len() == indexed@.len(),
                forall|k: int|
                    0 <= k < which.len() ==> (#[trigger] which[k]) < t && v.looked_up(
                        want,
                        cs,
                        which[k],
                    ) && indexed@[k].text@ == want[which[k]] && indexed@[k].wf(v, cs),
                forall|q: int|
                    q < t && #[trigger] v.looked_up(want, cs, q) ==> which.contains(q),
                ascending(hits@),
                forall|x: u32| #[trigger]
                    hits@.contains(x) ==> x < n && v.some_hit(want, cs, t as int)(x as int),
                forall|i: int|
                    0 <= i < n && #[trigger] v.some_hit(want, cs, t as int)(i) ==> hits@.contains(
                        i as u32,
                    ),
            decreases terms.len() - t,
        {
            let ghost verify0 = verify@;
            let ghost which0 = which;
            let ghost hits0 = hits@;
            assert(want[t as int] == terms@[t as int]@);
            let found = if t < MAX_AUTOMATA {
                self.look_up(terms[t].as_slice(), cs)
            } else {
                None
            };
            match found {
                Some((ids, term)) => {
                    assert(v.looked_up(want, cs, t as int));
                    if ids.len() == 0 {
                        proof {
                            assert forall|i: int| 0 <= i < n implies !#[trigger] v.term_hit(
                                want[t as int],
                                cs,
                                i,
                            ) by {
                                if v.term_hit(want[t as int], cs, i) {
                                    assert(ids@.contains(i as u32));
                                }
                            }
                            lemma_unmatched(v, want, *o, t as int);
                        }
                        let none: Vec<Vec<u8>> = Vec::new();
                        assert(views(none@) =~= paths_of(v.nodes, Seq::empty()));
                        return none;
                    }
                    let ghost ids0 = ids@;
                    hits = merge(&hits, &ids);
                    indexed.push(term);
                    proof {
                        which = which.push(t as int);
                        assert forall|q: int|
                            q < t + 1 && #[trigger] v.looked_up(want, cs, q) implies which.contains(
                            q,
                        ) by {
                            crate::ids::lemma_push_contains(which0, t as int, q);
                        }
                        assert forall|x: u32| #[trigger] hits@.contains(x) implies x < n
                            && v.some_hit(want, cs, t + 1)(x as int) by {
                            if hits0.contains(x) {
                                assert(v.some_hit(want, cs, t as int)(x as int));
                                let q = choose|q: int|
                                    q < t && #[trigger] v.looked_up(want, cs, q) && v.term_hit(
                                        want[q],
                                        cs,
                                        x as int,
                                    );
                                assert(v.looked_up(want, cs, q));
                            } else {
                                assert(ids0.contains(x));
                                assert(v.term_hit(want[t as int], cs, x as int));
                            }
                        }
                        assert forall|i: int|
                            0 <= i < n && #[trigger] v.some_hit(want, cs, t
                                + 1)(i) implies hits@.contains(i as u32) by {
                            let q = choose|q: int|
                                q < t + 1 && #[trigger] v.looked_up(want, cs, q) && v.term_hit(
                                    want[q],
                                    cs,
                                    i,
                                );
                            if q < t {
                                assert(v.some_hit(want, cs, t as int)(i));
                                assert(hits0.contains(i as u32));
                            } else {
                                assert(v.term_hit(want[t as int], cs, i));
                                assert(ids0.contains(i as u32));
                            }
                        }
                    }
                },
                None => {
                    verify.push(copy(terms[t].as_slice()));
                    proof {
                        assert(!v.looked_up(want, cs, t as int));
                        assert(views(verify@) =~= views(verify0).push(want[t as int]));
                        assert forall|i: int| #[trigger]
                            v.some_hit(want, cs, t + 1)(i) == v.some_hit(want, cs, t as int)(i) by {
                            if v.some_hit(want, cs, t + 1)(i) {
                                let q = choose|q: int|
                                    q < t + 1 && #[trigger] v.looked_up(want, cs, q) && v.term_hit(
                                        want[q],
                                        cs,
                                        i,
                                    );
                                assert(q < t);
                            }
                            if v.some_hit(want, cs, t as int)(i) {
                                let q = choose|q: int|
                                    q < t && #[trigger] v.looked_up(want, cs, q) && v.term_hit(
                                        want[q],
                                        cs,
                                        i,
                                    );
                                assert(v.looked_up(want, cs, q));
                            }
                        }
                        assert forall|x: u32| #[trigger] hits@.contains(x) implies x < n
                            && v.some_hit(want, cs, t + 1)(x as int) by {
                            assert(v.some_hit(want, cs, t as int)(x as int));
                            assert(v.some_hit(want, cs, t + 1)(x as int) == v.some_hit(
                                want,
                                cs,
                                t as int,
                            )(x as int));
                        }
                    }
                },
            }
            t = t + 1;
        }
        if indexed.len() == 0 {
            proof {
                if v.any_looked_up(want, cs) {
                    let q = choose|q: int| #[trigger] v.looked_up(want, cs, q);
                    assert(which.contains(q));
                }
            }
            return self.search_multi_scan(terms, limit, o);
        }
        proof {
            assert(v.looked_up(want, cs, which[0]));
        }
        let ghost sup = v.some_hit(want, cs, want.len() as int);
        let ghost keep = v.multi_anchor(want, cs);
        let ghost all = ids_where(sup, n);
        proof {
            assert forall|j: int| 0 <= j < hits@.len() implies (#[trigger] hits@[j]) < n && sup(
                hits@[j] as int,
            ) by {
                assert(hits@.contains(hits@[j]));
            }
            lemma_ids_where_unique(sup, n, hits@);
            lemma_narrow(sup, keep, n, 0);
        }
        let mut anchors: Vec<(u32, bool)> = Vec::new();
        let ghost mut picked: Seq<u32> = Seq::empty();
        let mut j: usize = 0;
        while j < hits.len()
            invariant
                self.wf(),
                v == self@,
                n == v.nodes.len(),
                cs == o.match_case,
                sup == v.some_hit(want, cs, want.len() as int),
                keep == v.multi_anchor(want, cs),
                hits@ == all,
                all == ids_where(sup, n),
                which.len() == indexed@.len(),
                forall|k: int|
                    0 <= k < which.len() ==> v.looked_up(want, cs, #[trigger] which[k])
                        && indexed@[k].text@ == want[which[k]] && indexed@[k].wf(v, cs),
                forall|q: int| #[trigger] v.looked_up(want, cs, q) ==> which.contains(q),
                j <= all.len(),
                picked == ids_where(keep, next_bound(all, n, j as int)),
                anchors@.len() == picked.len(),
                forall|k: int|
                    0 <= k < picked.len() ==> #[trigger] anchors@[k] == (
                        picked[k],
                        v.self_ok(want, cs, picked[k] as int),
                    ),
            decreases hits.len() - j,
        {
            let h = hits[j];
            proof {
                lemma_narrow(sup, keep, n, j as int);
            }
            let mut all_self = true;
            let mut all_desc = true;
            let mut k: usize = 0;
            while k < indexed.len()
                invariant
                    self.wf(),
                    v == self@,
                    v.has(h),
                    k <= indexed.len(),
                    which.len() == indexed@.len(),
                    forall|m: int|
                        0 <= m < which.len() ==> v.looked_up(want, cs, #[trigger] which[m])
                            && indexed@[m].text@ == want[which[m]] && indexed@[m].wf(v, cs),
                    all_desc <==> (forall|m: int|
                        0 <= m < k ==> v.chain_hit(want[#[trigger] which[m]], cs, h as int)),
                    all_self <==> (forall|m: int|
                        0 <= m < k ==> v.hit_for_self(want[#[trigger] which[m]], cs, h as int)),
                decreases indexed.len() - k,
            {
                assert(v.looked_up(want, cs, which[k as int]));
                let (for_self, for_desc) = self.chain_sat(&indexed[k], h, cs);
                if !for_desc {
                    all_desc = false;
                    assert(!v.chain_hit(want[which[k as int]], cs, h as int));
                }
                if !for_self {
                    all_self = false;
                    assert(!v.hit_for_self(want[which[k as int]], cs, h as int));
                }
                k = k + 1;
            }
            proof {
                assert(all_desc == v.chain_ok(want, cs, h as int)) by {
                    if all_desc {
                        assert forall|q: int| #[trigger] v.looked_up(want, cs, q) implies v.chain_hit(
                            want[q],
                            cs,
                            h as int,
                        ) by {
                            assert(which.contains(q));
                            let m = choose|m: int| 0 <= m < which.len() && which[m] == q;
                            assert(v.chain_hit(want[which[m]], cs, h as int));
                        }
                    } else {
                        let m = choose|m: int|
                            0 <= m < k && !v.chain_hit(want[#[trigger] which[m]], cs, h as int);
                        assert(v.looked_up(want, cs, which[m]));
                    }
                }
                assert(all_self == v.self_ok(want, cs, h as int)) by {
                    if all_self {
                        assert forall|q: int| #[trigger]
                            v.looked_up(want, cs, q) implies v.hit_for_self(
                            want[q],
                            cs,
                            h as int,
                        ) by {
                            assert(which.contains(q));
                            let m = choose|m: int| 0 <= m < which.len() && which[m] == q;
                            assert(v.hit_for_self(want[which[m]], cs, h as int));
                        }
                    } else {
                        let m = choose|m: int|
                            0 <= m < k && !v.hit_for_self(want[#[trigger] which[m]], cs, h as int);
                        assert(v.looked_up(want, cs, which[m]));
                    }
                }
                assert(all_desc == keep(h as int));
            }
            if all_desc {
                anchors.push((h, all_self));
                proof {
                    picked = picked.push(h);
                }
            }
            j = j + 1;
        }
        proof {
            assert(picked == v.selected(keep));
            lemma_ids_where(keep, n);
            assert(anchors@ =~= v.multi_anchors(want, cs));
        }
        self.emit_anchored(&anchors, limit, o, &verify)
    }
}

} // verus!
