//! What holds of searching as a whole.

use vstd::prelude::*;
use vstd::utf8::{encode_utf8, encode_utf8_valid_utf8, pop_first_scalar, valid_utf8};
use crate::anchored::{anchor_core, flagged, last_segment, lookup_key};
use crate::bytes::{has_suffix, lemma_occurs_within, occurs, occurs_at, SLASH};
use crate::exact::{anchors_ok, beneath, lists_exactly, shown_is_exact};
use crate::fold::{
    folded, lemma_fold_no_slash, lemma_fold_nonempty, lemma_fold_occurs, lemma_fold_slash,
    lemma_valid_halves,
};
use crate::ids::{lemma_ids_where, lemma_ids_where_contains};
use crate::index::IndexView;
use crate::lookup::{needle_of, needles_of, slashed};
use crate::options::SearchOpts;
use crate::search::{all_occur, answers, paths_of};
use crate::terms::{terms_are_not_empty, terms_of};
use crate::tree::{
    has_parent, lemma_chain_order, lemma_chain_total, lemma_effective_path, lemma_path_nonempty,
    on_chain, parents_first, path, root_path, separator, Node, NO_PARENT,
};
use crate::trigram::{has_all_trigrams, lemma_occurs_trigrams};

verus! {

/// The path of an entry begins with that of each folder above it.
proof fn lemma_path_prefix(v: IndexView, a: int, d: int, match_case: bool)
    requires
        on_chain(v.nodes, a, d),
        0 <= a,
        0 <= d < v.nodes.len(),
    ensures
        v.compared_path(a, match_case).len() <= v.compared_path(d, match_case).len(),
        v.compared_path(d, match_case).take(v.compared_path(a, match_case).len() as int)
            == v.compared_path(a, match_case),
    decreases d,
{
    let x = v.compared_path(a, match_case);
    let y = v.compared_path(d, match_case);
    if a != d {
        let p = v.nodes[d].parent as int;
        lemma_path_prefix(v, a, p, match_case);
        lemma_effective_path(v.nodes, d, match_case);
        let z = v.compared_path(p, match_case);
        assert(y.take(x.len() as int) =~= z.take(x.len() as int));
    } else {
        assert(y.take(y.len() as int) =~= y);
    }
}

proof fn lemma_parent_on_chain(nodes: Seq<Node>, d: int)
    requires
        has_parent(nodes, d),
    ensures
        on_chain(nodes, nodes[d].parent as int, d),
{
    assert(on_chain(nodes, nodes[d].parent as int, nodes[d].parent as int));
}

/// What occurs in the path of a folder occurs in the paths below it.
proof fn lemma_occurs_below(v: IndexView, a: int, d: int, match_case: bool, needle: Seq<u8>)
    requires
        on_chain(v.nodes, a, d),
        0 <= a,
        0 <= d < v.nodes.len(),
        occurs(v.compared_path(a, match_case), needle),
    ensures
        occurs(v.compared_path(d, match_case), needle),
{
    lemma_path_prefix(v, a, d, match_case);
    let x = v.compared_path(a, match_case);
    let y = v.compared_path(d, match_case);
    let tail = y.skip(x.len() as int);
    assert(y =~= Seq::<u8>::empty() + x + tail);
    lemma_occurs_within(Seq::empty(), x, tail, needle);
}

/// A path that ends in a separator is compared as one that does.
proof fn lemma_compared_end(v: IndexView, d: int, match_case: bool)
    requires
        0 <= d < v.nodes.len(),
    ensures
        v.compared_path(d, match_case).len() > 0,
        path(v.nodes, d).last() == SLASH ==> v.compared_path(d, match_case).last() == SLASH,
{
    let p = path(v.nodes, d);
    lemma_path_nonempty(v.nodes, d);
    lemma_fold_nonempty(p);
    if p.last() == SLASH {
        let stem = p.drop_last();
        assert(p =~= stem + seq![SLASH]);
        lemma_fold_slash(stem, Seq::empty());
        assert((folded(stem) + seq![SLASH]).last() == SLASH);
    }
}

/// The last segment is what follows the last separator.
proof fn lemma_last_segment(s: Seq<u8>)
    ensures
        last_segment(s).len() <= s.len(),
        s == s.take(s.len() - last_segment(s).len()) + last_segment(s),
        !last_segment(s).contains(SLASH),
        s.len() > 0 && s.last() != SLASH ==> last_segment(s).len() > 0,
        last_segment(s).len() < s.len() ==> s[s.len() - last_segment(s).len() - 1] == SLASH,
        !s.contains(SLASH) ==> last_segment(s) == s,
    decreases s.len(),
{
    let g = last_segment(s);
    if s.len() > 0 && s.last() != SLASH {
        let t = s.drop_last();
        lemma_last_segment(t);
        let h = last_segment(t);
        assert(g == h.push(s.last()));
        assert(s.take(s.len() - g.len()) =~= t.take(t.len() - h.len()));
        assert(s =~= t.push(s.last()));
        assert(t.take(t.len() - h.len()) + h.push(s.last()) =~= (t.take(t.len() - h.len())
            + h).push(s.last()));
        crate::ids::lemma_push_contains(h, s.last(), SLASH);
        if g.len() < s.len() {
            assert(s[s.len() - g.len() - 1] == t[t.len() - h.len() - 1]);
        }
        if !s.contains(SLASH) {
            assert(!t.contains(SLASH)) by {
                if t.contains(SLASH) {
                    let k = choose|k: int| 0 <= k < t.len() && t[k] == SLASH;
                    assert(s[k] == SLASH);
                }
            }
        }
    } else {
        assert(s =~= s.take(s.len() as int) + g);
        if s.len() > 0 {
            assert(s[s.len() - 1] == SLASH);
            assert(s.contains(SLASH));
        } else {
            assert(s =~= g);
        }
    }
}

/// The last segment of valid UTF-8 is valid UTF-8.
proof fn lemma_segment_valid(s: Seq<u8>)
    requires
        valid_utf8(s),
    ensures
        valid_utf8(last_segment(s)),
{
    lemma_last_segment(s);
    let g = last_segment(s);
    if g.len() == s.len() {
        assert(s.take(0) + g =~= g);
    } else {
        let at = s.len() - g.len() - 1;
        let x = s.take(at);
        let y = s.skip(at);
        assert(s =~= x + y);
        assert(y[0] == SLASH);
        lemma_valid_halves(x, y);
        assert(pop_first_scalar(y) =~= g) by {
            assert(s.take(s.len() - g.len()) + g =~= s);
        }
    }
}

/// An occurrence that ends inside the part that an entry adds to the path has
/// its last segment inside the entry's name.
proof fn lemma_segment_in_name(v: IndexView, d: int, match_case: bool, x: Seq<u8>, i: int)
    requires
        0 <= d < v.nodes.len(),
        occurs_at(v.compared_path(d, match_case), x, i),
        x.len() > 0,
        x.last() != SLASH,
        has_parent(v.nodes, d) ==> i + x.len() > v.compared_path(
            v.nodes[d].parent as int,
            match_case,
        ).len(),
    ensures
        occurs(v.compared_name(d, match_case), last_segment(x)),
{
    let whole = v.compared_path(d, match_case);
    let name = v.compared_name(d, match_case);
    let g = last_segment(x);
    lemma_last_segment(x);
    lemma_effective_path(v.nodes, d, match_case);
    let e = i + x.len();
    let from = e - g.len();
    assert forall|k: int| 0 <= k < g.len() implies whole[from + k] == #[trigger] g[k] && g[k]
        != SLASH by {
        let sub = whole.subrange(i, i + x.len());
        assert(sub[x.len() - g.len() + k] == whole[from + k]);
        assert((x.take(x.len() - g.len()) + g)[x.len() - g.len() + k] == g[k]);
        assert(g.contains(g[k]));
    }
    // Where the name begins in the path.
    let start = whole.len() - name.len();
    if has_parent(v.nodes, d) {
        let p = v.nodes[d].parent as int;
        let above = v.compared_path(p, match_case);
        let sep = separator(path(v.nodes, p));
        lemma_compared_end(v, p, match_case);
        assert(whole == above + (sep + name));
        assert(start == above.len() + sep.len());
        if from < start {
            // The byte before the name is a separator.
            let k = start - 1 - from;
            if k < g.len() {
                assert(0 <= k);
                assert(whole[from + k] == g[k]);
                assert(g[k] != SLASH);
                if sep.len() == 0 {
                    assert(whole[start - 1] == above.last());
                } else {
                    assert(whole[start - 1] == SLASH);
                }
                assert(false);
            } else {
                // The occurrence ends before the name: on the separator.
                assert(e == above.len() + 1 && sep.len() == 1 || e <= above.len());
                let m = g.len() - 1;
                assert(whole[from + m] == g[m] && g[m] != SLASH);
                assert(false);
            }
        }
    } else {
        if v.nodes[d].name.len() == 0 {
            assert(root_path(v.nodes[d].name) =~= seq![SLASH]);
            let s = seq![SLASH];
            lemma_fold_slash(Seq::empty(), Seq::empty());
            assert(Seq::<u8>::empty() + s =~= s);
            assert(folded(Seq::<u8>::empty()) + s =~= s);
            assert(whole =~= s);
            assert(whole[from + 0] == g[0] && g[0] != SLASH);
            assert(false);
        }
        assert(start == 0);
    }
    assert(name =~= whole.skip(start));
    assert(name.subrange(from - start, from - start + g.len()) =~= g);
    assert(occurs_at(name, g, from - start));
}

/// A name that holds the last segment is a candidate.
proof fn lemma_is_candidate(v: IndexView, d: int, match_case: bool, g: Seq<u8>)
    requires
        occurs(v.compared_name(d, match_case), g),
        match_case ==> valid_utf8(g),
    ensures
        has_all_trigrams(folded(v.nodes[d].name), lookup_key(g, match_case)),
{
    if match_case {
        lemma_fold_occurs(v.nodes[d].name, g);
    }
    lemma_occurs_trigrams(folded(v.nodes[d].name), lookup_key(g, match_case));
}

/// A needle that does not end in a separator occurs in a path exactly if it
/// ends at some entry on the chain.
proof fn lemma_ends_on_chain(v: IndexView, needle: Seq<u8>, match_case: bool, d: int)
    requires
        parents_first(v.nodes),
        0 <= d < v.nodes.len(),
        needle.len() > 0,
        needle.last() != SLASH,
        match_case ==> valid_utf8(needle),
    ensures
        occurs(v.compared_path(d, match_case), needle) <==> exists|a: int|
            0 <= a && on_chain(v.nodes, a, d) && #[trigger] v.ends_here(
                needle,
                needle,
                false,
                match_case,
            )(a),
    decreases d,
{
    let ends = v.ends_here(needle, needle, false, match_case);
    if occurs(v.compared_path(d, match_case), needle) {
        let i = choose|i: int| occurs_at(v.compared_path(d, match_case), needle, i);
        let here = if has_parent(v.nodes, d) {
            i + needle.len() > v.compared_path(v.nodes[d].parent as int, match_case).len()
        } else {
            true
        };
        if here {
            lemma_segment_in_name(v, d, match_case, needle, i);
            if match_case {
                lemma_segment_valid(needle);
            }
            lemma_is_candidate(v, d, match_case, last_segment(needle));
            assert(ends(d));
        } else {
            let p = v.nodes[d].parent as int;
            lemma_effective_path(v.nodes, d, match_case);
            let above = v.compared_path(p, match_case);
            assert(above.subrange(i, i + needle.len()) =~= v.compared_path(
                d,
                match_case,
            ).subrange(i, i + needle.len()));
            assert(occurs_at(above, needle, i));
            lemma_ends_on_chain(v, needle, match_case, p);
            let a = choose|a: int| 0 <= a && on_chain(v.nodes, a, p) && #[trigger] ends(a);
            assert(on_chain(v.nodes, a, d) && ends(a));
        }
    }
    if exists|a: int| 0 <= a && on_chain(v.nodes, a, d) && #[trigger] ends(a) {
        let a = choose|a: int| 0 <= a && on_chain(v.nodes, a, d) && #[trigger] ends(a);
        lemma_occurs_below(v, a, d, match_case, needle);
    }
}

/// In a tidy index everything hangs below the root.
proof fn lemma_root_on_chain(v: IndexView, d: int)
    requires
        parents_first(v.nodes),
        v.tidy(),
        0 <= d < v.nodes.len(),
    ensures
        on_chain(v.nodes, v.root as int, d),
    decreases d,
{
    if d != v.root {
        assert(v.nodes[d].parent != NO_PARENT);
        assert(v.nodes[d].parent < d);
        lemma_root_on_chain(v, v.nodes[d].parent as int);
    }
}

/// The name of the root, where it is not empty, is its path.
proof fn lemma_root_name(v: IndexView, match_case: bool, needle: Seq<u8>)
    requires
        v.tidy(),
        needle.len() >= 2,
    ensures
        occurs(v.compared_path(v.root as int, match_case), needle) <==> occurs(
            v.compared_name(v.root as int, match_case),
            needle,
        ),
{
    let r = v.root as int;
    assert(v.nodes[r].parent == NO_PARENT);
    lemma_effective_path(v.nodes, r, match_case);
    if v.nodes[r].name.len() == 0 {
        let s = seq![SLASH];
        assert(root_path(v.nodes[r].name) =~= s);
        lemma_fold_slash(Seq::empty(), Seq::empty());
        assert(Seq::<u8>::empty() + s =~= s);
        assert(folded(Seq::<u8>::empty()) + s =~= s);
        assert(v.compared_path(r, match_case) =~= s);
        assert(v.compared_name(r, match_case) =~= Seq::<u8>::empty());
        assert(!occurs(s, needle));
        assert(!occurs(Seq::<u8>::empty(), needle));
    }
}

/// A needle that ends in a separator occurs in a path exactly if the root's own
/// name holds it, or the rest of it ends the path of a folder above.
proof fn lemma_inside(v: IndexView, core: Seq<u8>, match_case: bool, d: int)
    requires
        parents_first(v.nodes),
        v.tidy(),
        0 <= d < v.nodes.len(),
        core.len() > 0,
        core.last() != SLASH,
        match_case ==> valid_utf8(core.push(SLASH)),
    ensures
        occurs(v.compared_path(d, match_case), core.push(SLASH)) <==> (occurs(
            v.compared_name(v.root as int, match_case),
            core.push(SLASH),
        ) || exists|a: int|
            0 <= a && a != d && on_chain(v.nodes, a, d) && #[trigger] v.ends_here(
                core.push(SLASH),
                core,
                true,
                match_case,
            )(a)),
    decreases d,
{
    let needle = core.push(SLASH);
    let ends = v.ends_here(needle, core, true, match_case);
    let whole = v.compared_path(d, match_case);
    lemma_effective_path(v.nodes, d, match_case);
    if occurs(whole, needle) {
        if d == v.root {
            lemma_root_name(v, match_case, needle);
        } else {
            let p = v.nodes[d].parent as int;
            assert(v.nodes[d].parent != NO_PARENT);
            assert(has_parent(v.nodes, d));
            let above = v.compared_path(p, match_case);
            let sep = separator(path(v.nodes, p));
            let name = v.compared_name(d, match_case);
            assert(whole == above + (sep + name));
            assert(!name.contains(SLASH)) by {
                assert(!v.nodes[d].name.contains(SLASH));
                lemma_fold_no_slash(v.nodes[d].name);
            }
            let i = choose|i: int| occurs_at(whole, needle, i);
            let q = i + core.len();
            assert(whole.subrange(i, i + needle.len())[core.len() as int] == whole[q]);
            assert(whole[q] == SLASH);
            if q < above.len() {
                assert(above.subrange(i, i + needle.len()) =~= whole.subrange(
                    i,
                    i + needle.len(),
                ));
                assert(occurs_at(above, needle, i));
                lemma_inside(v, core, match_case, p);
                if !occurs(v.compared_name(v.root as int, match_case), needle) {
                    let a = choose|a: int|
                        0 <= a && a != p && on_chain(v.nodes, a, p) && #[trigger] ends(a);
                    lemma_chain_order(v.nodes, a, p);
                    assert(on_chain(v.nodes, a, d) && ends(a));
                }
            } else {
                if q >= above.len() + sep.len() {
                    assert(name[q - above.len() - sep.len()] == SLASH);
                    assert(name.contains(SLASH));
                }
                assert(q == above.len());
                assert(above.skip(i) =~= core) by {
                    assert forall|k: int| 0 <= k < core.len() implies above[i + k] == core[k] by {
                        assert(whole.subrange(i, i + needle.len())[k] == whole[i + k]);
                        assert(needle[k] == core[k]);
                    }
                }
                assert(has_suffix(above, core));
                lemma_suffix_candidate(v, core, match_case, p);
                assert(ends(p));
                lemma_parent_on_chain(v.nodes, d);
            }
        }
    }
    if occurs(v.compared_name(v.root as int, match_case), needle) {
        lemma_root_name(v, match_case, needle);
        lemma_root_on_chain(v, d);
        lemma_occurs_below(v, v.root as int, d, match_case, needle);
    }
    if exists|a: int| 0 <= a && a != d && on_chain(v.nodes, a, d) && #[trigger] ends(a) {
        let a = choose|a: int| 0 <= a && a != d && on_chain(v.nodes, a, d) && #[trigger] ends(a);
        lemma_chain_order(v.nodes, a, d);
        lemma_inside_child(v, core, match_case, a, d);
    }
}

/// Strictly below a folder whose path ends with `core`, paths hold `core` and a
/// separator.
proof fn lemma_inside_child(v: IndexView, core: Seq<u8>, match_case: bool, a: int, d: int)
    requires
        parents_first(v.nodes),
        0 <= a,
        0 <= d < v.nodes.len(),
        a != d,
        on_chain(v.nodes, a, d),
        core.len() > 0,
        core.last() != SLASH,
        has_suffix(v.compared_path(a, match_case), core),
    ensures
        occurs(v.compared_path(d, match_case), core.push(SLASH)),
    decreases d,
{
    let p = v.nodes[d].parent as int;
    let needle = core.push(SLASH);
    if p == a {
        let above = v.compared_path(a, match_case);
        let whole = v.compared_path(d, match_case);
        lemma_effective_path(v.nodes, d, match_case);
        lemma_compared_end(v, a, match_case);
        assert(above.skip(above.len() - core.len())[core.len() - 1] == above.last());
        assert(path(v.nodes, a).last() != SLASH);
        let i = above.len() - core.len();
        assert(whole[above.len() as int] == SLASH);
        assert(whole.subrange(i, i + needle.len()) =~= needle) by {
            assert forall|k: int| 0 <= k < core.len() implies whole[i + k] == core[k] by {
                assert(above.skip(i)[k] == above[i + k]);
            }
        }
        assert(occurs_at(whole, needle, i));
    } else {
        lemma_inside_child(v, core, match_case, a, p);
        lemma_parent_on_chain(v.nodes, d);
        lemma_occurs_below(v, p, d, match_case, needle);
    }
}

/// An entry whose path ends with `core` is a candidate.
proof fn lemma_suffix_candidate(v: IndexView, core: Seq<u8>, match_case: bool, a: int)
    requires
        0 <= a < v.nodes.len(),
        core.len() > 0,
        core.last() != SLASH,
        match_case ==> valid_utf8(core.push(SLASH)),
        has_suffix(v.compared_path(a, match_case), core),
    ensures
        has_all_trigrams(
            folded(v.nodes[a].name),
            lookup_key(last_segment(core), match_case),
        ),
{
    let whole = v.compared_path(a, match_case);
    let i = whole.len() - core.len();
    assert(whole.subrange(i, i + core.len()) =~= whole.skip(i));
    assert(occurs_at(whole, core, i));
    lemma_effective_path(v.nodes, a, match_case);
    if has_parent(v.nodes, a) {
        let p = v.nodes[a].parent as int;
        let above = v.compared_path(p, match_case);
        lemma_compared_end(v, p, match_case);
        if whole.len() == above.len() {
            assert(whole =~= above);
            let sep = separator(path(v.nodes, p));
            assert(sep.len() == 0);
            assert(whole.last() == SLASH);
            assert(whole.skip(i)[core.len() - 1] == whole.last());
        }
    }
    lemma_segment_in_name(v, a, match_case, core, i);
    if match_case {
        let s = core.push(SLASH);
        assert(s =~= core + seq![SLASH]);
        lemma_valid_halves(core, seq![SLASH]);
        lemma_segment_valid(core);
    }
    lemma_is_candidate(v, a, match_case, last_segment(core));
}

/// Ids selected in ascending order make a list of anchors.
proof fn lemma_flagged_ok(v: IndexView, keep: spec_fn(int) -> bool, flag: bool)
    requires
        parents_first(v.nodes),
    ensures
        anchors_ok(v.nodes, flagged(v.selected(keep), flag)),
        forall|d: int| #[trigger]
            beneath(v.nodes, flagged(v.selected(keep), flag), d) <==> exists|a: int|
                0 <= a < v.nodes.len() && on_chain(v.nodes, a, d) && #[trigger] keep(a) && (flag
                    || a != d),
{
    let ids = v.selected(keep);
    let list = flagged(ids, flag);
    lemma_ids_where(keep, v.nodes.len());
    assert forall|d: int| #[trigger] beneath(v.nodes, list, d) <==> exists|a: int|
        0 <= a < v.nodes.len() && on_chain(v.nodes, a, d) && #[trigger] keep(a) && (flag || a
            != d) by {
        if beneath(v.nodes, list, d) {
            let k = choose|k: int|
                0 <= k < list.len() && on_chain(v.nodes, (#[trigger] list[k]).0 as int, d) && (
                list[k].1 || d != list[k].0);
            assert(keep(ids[k] as int));
        }
        if exists|a: int|
            0 <= a < v.nodes.len() && on_chain(v.nodes, a, d) && #[trigger] keep(a) && (flag || a
                != d) {
            let a = choose|a: int|
                0 <= a < v.nodes.len() && on_chain(v.nodes, a, d) && #[trigger] keep(a) && (flag
                    || a != d);
            assert(ids.contains(a as u32));
            let k = choose|k: int| 0 <= k < ids.len() && ids[k] == a as u32;
            assert(list[k].0 == a as u32);
        }
    }
}

/// `lists_exactly` speaks of the selection alone.
proof fn lemma_lists_agree(
    ids: Seq<u32>,
    f: spec_fn(int) -> bool,
    g: spec_fn(int) -> bool,
    n: nat,
)
    requires
        lists_exactly(ids, f, n),
        forall|d: int| 0 <= d < n ==> f(d) == #[trigger] g(d),
    ensures
        lists_exactly(ids, g, n),
{
    assert forall|d: u32| #[trigger] ids.contains(d) <==> (d < n && g(d as int)) by {
        if d < n {
            assert(f(d as int) == g(d as int));
        }
    }
}

pub proof fn lemma_selection(v: IndexView, keep: spec_fn(int) -> bool)
    requires
        parents_first(v.nodes),
    ensures
        lists_exactly(v.selected(keep), keep, v.nodes.len()),
{
    let s = v.selected(keep);
    lemma_ids_where(keep, v.nodes.len());
    assert forall|d: u32| #[trigger] s.contains(d) <==> (d < v.nodes.len() && keep(d as int)) by {
        lemma_ids_where_contains(keep, v.nodes.len(), d);
    }
    assert forall|i: int, j: int| 0 <= i < s.len() && 0 <= j < s.len() && i != j implies s[i]
        != s[j] by {
        if i < j {
            assert(s[i] < s[j]);
        } else {
            assert(s[j] < s[i]);
        }
    }
}

/// What lies beneath the anchors of a needle: the paths that hold it.
proof fn lemma_anchors_match(v: IndexView, needle: Seq<u8>, match_case: bool, d: int)
    requires
        parents_first(v.nodes),
        v.tidy(),
        0 <= d < v.nodes.len(),
        needle.len() > 0,
        match_case ==> valid_utf8(needle),
        v.anchors(needle, match_case) is Some,
    ensures
        ({
            let (ids, strict) = v.anchors(needle, match_case)->0;
            &&& anchors_ok(v.nodes, flagged(ids, !strict))
            &&& beneath(v.nodes, flagged(ids, !strict), d) <==> occurs(
                v.compared_path(d, match_case),
                needle,
            )
        }),
{
    let (ids, strict) = v.anchors(needle, match_case)->0;
    let (core, inside) = anchor_core(needle)->0;
    let keep = v.ends_here(needle, core, inside, match_case);
    if inside {
        assert(needle =~= core.push(SLASH));
        lemma_inside(v, core, match_case, d);
        if occurs(v.compared_name(v.root as int, match_case), needle) {
            let list = flagged(ids, true);
            lemma_root_on_chain(v, d);
            assert(list[0].0 == v.root);
        } else {
            lemma_flagged_ok(v, keep, false);
            if occurs(v.compared_path(d, match_case), needle) {
                let a = choose|a: int|
                    0 <= a && a != d && on_chain(v.nodes, a, d) && #[trigger] keep(a);
                lemma_chain_order(v.nodes, a, d);
                assert(keep(a));
            }
        }
    } else {
        lemma_ends_on_chain(v, needle, match_case, d);
        lemma_flagged_ok(v, keep, true);
        if occurs(v.compared_path(d, match_case), needle) {
            let a = choose|a: int| 0 <= a && on_chain(v.nodes, a, d) && #[trigger] keep(a);
            lemma_chain_order(v.nodes, a, d);
            assert(keep(a));
        }
    }
}

/// A path search finds exactly the accepted entries whose path holds the
/// needle, each once, whether it goes through the trigram lists or not.
pub proof fn path_search_is_exact(v: IndexView, needle: Seq<u8>, o: SearchOpts)
    requires
        v.searchable(),
        needle.len() > 0,
        o.match_case ==> valid_utf8(needle),
    ensures
        lists_exactly(v.single_ids(needle, true, o), v.path_match(needle, o), v.nodes.len()),
{
    match v.anchors(needle, o.match_case) {
        None => {
            lemma_selection(v, v.path_match(needle, o));
        },
        Some((ids, strict)) => {
            let list = flagged(ids, !strict);
            assert(v.nodes[v.root as int].parent == NO_PARENT);
            assert forall|d: int| 0 <= d < v.nodes.len() implies (beneath(v.nodes, list, d)
                <==> occurs(#[trigger] v.compared_path(d, o.match_case), needle)) by {
                lemma_anchors_match(v, needle, o.match_case, d);
            }
            lemma_anchors_match(v, needle, o.match_case, v.root as int);
            shown_is_exact(v, list, o, seq![]);
            let f = |d: int|
                v.accepts(d, o) && all_occur(v.compared_path(d, o.match_case), seq![]) && beneath(
                    v.nodes,
                    list,
                    d,
                );
            assert forall|d: int| 0 <= d < v.nodes.len() implies f(d) == #[trigger] v.path_match(
                needle,
                o,
            )(d) by {
                assert(all_occur(v.compared_path(d, o.match_case), seq![]));
            }
            lemma_lists_agree(
                v.single_ids(needle, true, o),
                f,
                v.path_match(needle, o),
                v.nodes.len(),
            );
        },
    }
}

// Several terms.

/// A term matches on a chain exactly if it matches at one of its entries.
proof fn lemma_chain_hit(v: IndexView, t: Seq<u8>, match_case: bool, d: int)
    requires
        parents_first(v.nodes),
        0 <= d < v.nodes.len(),
    ensures
        v.chain_hit(t, match_case, d) <==> exists|a: int|
            0 <= a && on_chain(v.nodes, a, d) && #[trigger] v.term_hit(t, match_case, a),
    decreases d,
{
    if has_parent(v.nodes, d) {
        let p = v.nodes[d].parent as int;
        lemma_chain_hit(v, t, match_case, p);
        if v.chain_hit(t, match_case, p) {
            let a = choose|a: int|
                0 <= a && on_chain(v.nodes, a, p) && #[trigger] v.term_hit(t, match_case, a);
            assert(on_chain(v.nodes, a, d) && v.term_hit(t, match_case, a));
        }
    }
    if v.term_hit(t, match_case, d) {
        assert(on_chain(v.nodes, d, d));
    }
}

/// What holds of a chain holds of the chains that go on from it.
proof fn lemma_chain_hit_below(v: IndexView, t: Seq<u8>, match_case: bool, a: int, d: int)
    requires
        on_chain(v.nodes, a, d),
        v.chain_hit(t, match_case, a),
    ensures
        v.chain_hit(t, match_case, d),
    decreases d,
{
    if a != d {
        lemma_chain_hit_below(v, t, match_case, a, v.nodes[d].parent as int);
    }
}

/// A term that the trigram lists can tell of is satisfied by an entry exactly
/// if the entry's path holds it.
proof fn lemma_term_exact(v: IndexView, t: Seq<u8>, match_case: bool, d: int)
    requires
        parents_first(v.nodes),
        v.tidy(),
        0 <= d < v.nodes.len(),
        t.len() > 0,
        match_case ==> valid_utf8(t),
        v.term_indexed(t, match_case),
    ensures
        v.hit_for_self(t, match_case, d) <==> occurs(v.compared_path(d, match_case), t),
{
    lemma_chain_hit(v, t, match_case, d);
    if t.contains(SLASH) {
        let (ids, strict) = v.anchors(t, match_case)->0;
        let list = flagged(ids, !strict);
        lemma_anchors_match(v, t, match_case, d);
        if strict {
            // A match strictly above.
            if has_parent(v.nodes, d) {
                lemma_chain_hit(v, t, match_case, v.nodes[d].parent as int);
            }
            if beneath(v.nodes, list, d) {
                let k = choose|k: int|
                    0 <= k < list.len() && on_chain(v.nodes, (#[trigger] list[k]).0 as int, d) && (
                    list[k].1 || d != list[k].0);
                let a = list[k].0 as int;
                assert(ids[k] == list[k].0);
                assert(ids.contains(ids[k]));
                assert(v.term_hit(t, match_case, a));
                assert(on_chain(v.nodes, a, v.nodes[d].parent as int));
            }
            if v.hit_for_self(t, match_case, d) {
                let p = v.nodes[d].parent as int;
                let a = choose|a: int|
                    0 <= a && on_chain(v.nodes, a, p) && #[trigger] v.term_hit(t, match_case, a);
                lemma_chain_order(v.nodes, a, p);
                assert(ids.contains(a as u32));
                let k = choose|k: int| 0 <= k < ids.len() && ids[k] == a as u32;
                assert(list[k].0 == a as u32);
                assert(on_chain(v.nodes, a, d));
                assert(beneath(v.nodes, list, d));
            }
        } else {
            if beneath(v.nodes, list, d) {
                let k = choose|k: int|
                    0 <= k < list.len() && on_chain(v.nodes, (#[trigger] list[k]).0 as int, d) && (
                    list[k].1 || d != list[k].0);
                assert(ids[k] == list[k].0);
                assert(ids.contains(ids[k]));
                assert(v.term_hit(t, match_case, list[k].0 as int));
            }
            if v.chain_hit(t, match_case, d) {
                let a = choose|a: int|
                    0 <= a && on_chain(v.nodes, a, d) && #[trigger] v.term_hit(t, match_case, a);
                lemma_chain_order(v.nodes, a, d);
                assert(ids.contains(a as u32));
                let k = choose|k: int| 0 <= k < ids.len() && ids[k] == a as u32;
                assert(list[k].0 == a as u32);
                assert(beneath(v.nodes, list, d));
            }
        }
    } else {
        lemma_plain_term(v, t, match_case, d);
    }
}

/// A term without a separator occurs in a path exactly if a name on the chain
/// holds it.
proof fn lemma_plain_term(v: IndexView, t: Seq<u8>, match_case: bool, d: int)
    requires
        parents_first(v.nodes),
        0 <= d < v.nodes.len(),
        t.len() > 0,
        !t.contains(SLASH),
    ensures
        v.chain_hit(t, match_case, d) <==> occurs(v.compared_path(d, match_case), t),
    decreases d,
{
    let whole = v.compared_path(d, match_case);
    let name = v.compared_name(d, match_case);
    lemma_effective_path(v.nodes, d, match_case);
    lemma_last_segment(t);
    assert(t.last() != SLASH) by {
        assert(t.contains(t[t.len() - 1]));
    }
    if v.term_hit(t, match_case, d) {
        if has_parent(v.nodes, d) {
            let above = v.compared_path(v.nodes[d].parent as int, match_case);
            let sep = separator(path(v.nodes, v.nodes[d].parent as int));
            assert(whole =~= (above + sep) + name + Seq::<u8>::empty());
            lemma_occurs_within(above + sep, name, Seq::empty(), t);
        } else if v.nodes[d].name.len() == 0 {
            assert(name =~= Seq::<u8>::empty());
            assert(!occurs(name, t));
        }
    }
    if has_parent(v.nodes, d) {
        let p = v.nodes[d].parent as int;
        lemma_plain_term(v, t, match_case, p);
        if v.chain_hit(t, match_case, p) {
            lemma_parent_on_chain(v.nodes, d);
            lemma_occurs_below(v, p, d, match_case, t);
        }
    }
    if occurs(whole, t) {
        let i = choose|i: int| occurs_at(whole, t, i);
        if has_parent(v.nodes, d) && i + t.len() <= v.compared_path(
            v.nodes[d].parent as int,
            match_case,
        ).len() {
            let above = v.compared_path(v.nodes[d].parent as int, match_case);
            assert(above.subrange(i, i + t.len()) =~= whole.subrange(i, i + t.len()));
            assert(occurs_at(above, t, i));
        } else {
            lemma_segment_in_name(v, d, match_case, t, i);
        }
    }
}

/// A satisfied term has a match on the chain.
proof fn lemma_self_chain(v: IndexView, t: Seq<u8>, match_case: bool, d: int)
    requires
        v.hit_for_self(t, match_case, d),
    ensures
        v.chain_hit(t, match_case, d),
{
}

/// Below an entry whose chain matches, the term is satisfied.
proof fn lemma_chain_self(v: IndexView, t: Seq<u8>, match_case: bool, a: int, d: int)
    requires
        on_chain(v.nodes, a, d),
        a != d,
        v.chain_hit(t, match_case, a),
    ensures
        v.hit_for_self(t, match_case, d),
{
    lemma_chain_hit_below(v, t, match_case, a, v.nodes[d].parent as int);
}

/// Where every looked-up term among the first `k` is satisfied, one of the
/// entries on the chain is a match that has them all on its own chain.
proof fn lemma_deepest(
    v: IndexView,
    terms: Seq<Seq<u8>>,
    match_case: bool,
    d: int,
    k: int,
) -> (h: int)
    requires
        parents_first(v.nodes),
        0 <= d < v.nodes.len(),
        0 <= k <= terms.len(),
        exists|q: int| q < k && #[trigger] v.looked_up(terms, match_case, q),
        forall|q: int|
            q < k && #[trigger] v.looked_up(terms, match_case, q) ==> v.chain_hit(
                terms[q],
                match_case,
                d,
            ),
    ensures
        0 <= h <= d,
        on_chain(v.nodes, h, d),
        v.some_hit(terms, match_case, k)(h),
        forall|q: int|
            q < k && #[trigger] v.looked_up(terms, match_case, q) ==> v.chain_hit(
                terms[q],
                match_case,
                h,
            ),
    decreases k,
{
    let last = k - 1;
    if v.looked_up(terms, match_case, last) {
        let t = terms[last];
        lemma_chain_hit(v, t, match_case, d);
        let a = choose|a: int|
            0 <= a && on_chain(v.nodes, a, d) && #[trigger] v.term_hit(t, match_case, a);
        lemma_chain_order(v.nodes, a, d);
        assert(v.chain_hit(t, match_case, a));
        if exists|q: int| q < last && #[trigger] v.looked_up(terms, match_case, q) {
            let g = lemma_deepest(v, terms, match_case, d, last);
            if a <= g {
                lemma_chain_total(v.nodes, a, g, d);
                lemma_chain_hit_below(v, t, match_case, a, g);
                let q = choose|q: int|
                    q < last && #[trigger] v.looked_up(terms, match_case, q) && v.term_hit(
                        terms[q],
                        match_case,
                        g,
                    );
                assert(v.looked_up(terms, match_case, q));
                g
            } else {
                lemma_chain_total(v.nodes, g, a, d);
                assert forall|q: int|
                    q < k && #[trigger] v.looked_up(terms, match_case, q) implies v.chain_hit(
                    terms[q],
                    match_case,
                    a,
                ) by {
                    if q < last {
                        lemma_chain_hit_below(v, terms[q], match_case, g, a);
                    }
                }
                a
            }
        } else {
            a
        }
    } else {
        let g = lemma_deepest(v, terms, match_case, d, last);
        let q = choose|q: int|
            q < last && #[trigger] v.looked_up(terms, match_case, q) && v.term_hit(
                terms[q],
                match_case,
                g,
            );
        assert(v.looked_up(terms, match_case, q));
        g
    }
}

/// The terms that are not looked up are the ones checked on each path.
proof fn lemma_checked(v: IndexView, terms: Seq<Seq<u8>>, match_case: bool, k: nat, hay: Seq<u8>)
    requires
        k <= terms.len(),
    ensures
        all_occur(hay, v.checked_terms(terms, match_case, k)) <==> (forall|q: int|
            0 <= q < k && !#[trigger] v.looked_up(terms, match_case, q) ==> occurs(hay, terms[q])),
    decreases k,
{
    if k > 0 {
        let m = (k - 1) as nat;
        lemma_checked(v, terms, match_case, m, hay);
        let s = v.checked_terms(terms, match_case, m);
        if !v.looked_up(terms, match_case, k - 1) {
            let all = s.push(terms[k - 1]);
            if all_occur(hay, all) {
                assert forall|t: int| 0 <= t < s.len() implies occurs(hay, #[trigger] s[t]) by {
                    assert(all[t] == s[t]);
                }
                assert(all[s.len() as int] == terms[k - 1]);
            }
            if all_occur(hay, s) && occurs(hay, terms[k - 1]) {
                assert forall|t: int| 0 <= t < all.len() implies occurs(hay, #[trigger] all[t]) by {
                    if t < s.len() {
                        assert(all[t] == s[t]);
                    }
                }
            }
            if forall|q: int|
                0 <= q < k && !#[trigger] v.looked_up(terms, match_case, q) ==> occurs(
                    hay,
                    terms[q],
                ) {
                assert(occurs(hay, terms[k - 1]));
            }
        }
    }
}

/// A search for several terms finds exactly the accepted entries whose path
/// holds every one of them, each once, however many terms there are and
/// whether or not it goes through the trigram lists.
pub proof fn multi_search_is_exact(v: IndexView, terms: Seq<Seq<u8>>, o: SearchOpts)
    requires
        v.searchable(),
        forall|t: int| 0 <= t < terms.len() ==> (#[trigger] terms[t]).len() > 0,
        o.match_case ==> forall|t: int| 0 <= t < terms.len() ==> valid_utf8(#[trigger] terms[t]),
    ensures
        lists_exactly(v.multi_ids(terms, o), v.terms_match(terms, o), v.nodes.len()),
{
    let cs = o.match_case;
    let nodes = v.nodes;
    if !v.indexed || v.root == NO_PARENT || !v.any_looked_up(terms, cs) {
        lemma_selection(v, v.terms_match(terms, o));
    } else {
        let keep = v.multi_anchor(terms, cs);
        let ids = v.selected(keep);
        let list = v.multi_anchors(terms, cs);
        let verify = v.checked_terms(terms, cs, terms.len());
        lemma_ids_where(keep, nodes.len());
        assert(nodes[v.root as int].parent == NO_PARENT);
        assert(anchors_ok(nodes, list));
        shown_is_exact(v, list, o, verify);
        let f = |d: int|
            v.accepts(d, o) && all_occur(v.compared_path(d, cs), verify) && beneath(
                nodes,
                list,
                d,
            );
        assert forall|d: int| 0 <= d < nodes.len() implies f(d) == #[trigger] v.terms_match(
            terms,
            o,
        )(d) by {
            let hay = v.compared_path(d, cs);
            lemma_checked(v, terms, cs, terms.len(), hay);
            assert forall|q: int| #[trigger] v.looked_up(terms, cs, q) implies (v.hit_for_self(
                terms[q],
                cs,
                d,
            ) <==> occurs(hay, terms[q])) by {
                lemma_term_exact(v, terms[q], cs, d);
            }
            if f(d) {
                let k = choose|k: int|
                    0 <= k < list.len() && on_chain(nodes, (#[trigger] list[k]).0 as int, d) && (
                    list[k].1 || d != list[k].0);
                let h = ids[k] as int;
                assert(keep(h));
                assert forall|q: int| 0 <= q < terms.len() implies occurs(
                    hay,
                    #[trigger] terms[q],
                ) by {
                    if v.looked_up(terms, cs, q) {
                        if d == h {
                            assert(v.self_ok(terms, cs, h));
                        } else {
                            assert(v.chain_hit(terms[q], cs, h));
                            lemma_chain_self(v, terms[q], cs, h, d);
                        }
                        assert(v.hit_for_self(terms[q], cs, d));
                    }
                }
            }
            if v.terms_match(terms, o)(d) {
                assert forall|q: int| #[trigger] v.looked_up(terms, cs, q) implies v.hit_for_self(
                    terms[q],
                    cs,
                    d,
                ) by {
                    assert(occurs(hay, terms[q]));
                }
                assert forall|q: int|
                    0 <= q < terms.len() && !#[trigger] v.looked_up(
                        terms,
                        cs,
                        q,
                    ) implies occurs(hay, terms[q]) by {}
                let w = choose|q: int| #[trigger] v.looked_up(terms, cs, q);
                assert(w < terms.len() && v.looked_up(terms, cs, w));
                assert forall|q: int|
                    q < terms.len() && #[trigger] v.looked_up(terms, cs, q) implies v.chain_hit(
                    terms[q],
                    cs,
                    d,
                ) by {
                    assert(v.hit_for_self(terms[q], cs, d));
                    lemma_self_chain(v, terms[q], cs, d);
                }
                let h = lemma_deepest(v, terms, cs, d, terms.len() as int);
                assert(v.chain_ok(terms, cs, h)) by {
                    assert forall|q: int| #[trigger] v.looked_up(terms, cs, q) implies v.chain_hit(
                        terms[q],
                        cs,
                        h,
                    ) by {
                        assert(q < terms.len());
                    }
                }
                assert(keep(h));
                assert(ids.contains(h as u32));
                let k = choose|k: int| 0 <= k < ids.len() && ids[k] == h as u32;
                assert(list[k].0 == h as u32);
                if h == d {
                    assert(v.self_ok(terms, cs, h));
                }
                assert(beneath(nodes, list, d));
            }
        }
        lemma_lists_agree(v.multi_ids(terms, o), f, v.terms_match(terms, o), nodes.len());
    }
}

impl IndexView {
    /// Selects what a search is for. One term without a separator is looked
    /// for in names, unless the whole path is asked for; otherwise every term
    /// is looked for in the path.
    pub open spec fn wanted(self, pattern: Seq<char>, o: SearchOpts) -> spec_fn(int) -> bool {
        let terms = terms_of(pattern);
        let needles = needles_of(terms, o.match_case);
        if terms.len() == 0 {
            |i: int| false
        } else if terms.len() == 1 && !(o.in_path || slashed(terms[0])) {
            self.name_match(needles[0], o)
        } else {
            self.terms_match(needles, o)
        }
    }
}

/// The terms as they are compared are not empty, and valid where case counts.
pub proof fn lemma_needles(pattern: Seq<char>, match_case: bool)
    ensures
        ({
            let needles = needles_of(terms_of(pattern), match_case);
            &&& forall|t: int| 0 <= t < needles.len() ==> (#[trigger] needles[t]).len() > 0
            &&& match_case ==> forall|t: int|
                0 <= t < needles.len() ==> valid_utf8(#[trigger] needles[t])
        }),
{
    let terms = terms_of(pattern);
    let needles = needles_of(terms, match_case);
    terms_are_not_empty(pattern);
    assert forall|t: int| 0 <= t < needles.len() implies (#[trigger] needles[t]).len() > 0 && (
    match_case ==> valid_utf8(needles[t])) by {
        assert(terms[t].len() > 0);
        encode_utf8_valid_utf8(terms[t]);
        assert(vstd::utf8::encode_scalar(terms[t][0] as u32).len() > 0);
        lemma_fold_nonempty(encode_utf8(terms[t]));
    }
}

/// A search finds exactly the entries it is for, each once.
pub proof fn search_is_exact(v: IndexView, pattern: Seq<char>, o: SearchOpts)
    requires
        v.searchable(),
    ensures
        lists_exactly(v.found_ids(pattern, o), v.wanted(pattern, o), v.nodes.len()),
{
    let terms = terms_of(pattern);
    let needles = needles_of(terms, o.match_case);
    lemma_needles(pattern, o.match_case);
    if terms.len() == 1 {
        assert(needles[0] == needle_of(terms[0], o.match_case));
        if o.in_path || slashed(terms[0]) {
            path_search_is_exact(v, needles[0], o);
            assert forall|d: int| 0 <= d < v.nodes.len() implies v.path_match(needles[0], o)(d)
                == #[trigger] v.terms_match(needles, o)(d) by {
                let hay = v.compared_path(d, o.match_case);
                assert(all_occur(hay, needles) <==> occurs(hay, needles[0]));
            }
            lemma_lists_agree(
                v.found_ids(pattern, o),
                v.path_match(needles[0], o),
                v.terms_match(needles, o),
                v.nodes.len(),
            );
        } else {
            lemma_selection(v, v.name_match(needles[0], o));
        }
    } else if terms.len() > 1 {
        multi_search_is_exact(v, needles, o);
    }
}

/// The order of the terms, and repeating one, change no result.
pub proof fn term_order_is_irrelevant(
    v: IndexView,
    a: Seq<Seq<u8>>,
    b: Seq<Seq<u8>>,
    o: SearchOpts,
    d: u32,
)
    requires
        v.searchable(),
        forall|t: int| 0 <= t < a.len() ==> (#[trigger] a[t]).len() > 0,
        o.match_case ==> forall|t: int| 0 <= t < a.len() ==> valid_utf8(#[trigger] a[t]),
        forall|x: Seq<u8>| #[trigger] a.contains(x) <==> b.contains(x),
    ensures
        v.multi_ids(a, o).contains(d) <==> v.multi_ids(b, o).contains(d),
{
    assert forall|t: int| 0 <= t < b.len() implies (#[trigger] b[t]).len() > 0 && (o.match_case
        ==> valid_utf8(b[t])) by {
        assert(b.contains(b[t]));
        assert(a.contains(b[t]));
        let q = choose|q: int| 0 <= q < a.len() && a[q] == b[t];
        assert(a[q].len() > 0);
    }
    multi_search_is_exact(v, a, o);
    multi_search_is_exact(v, b, o);
    if d < v.nodes.len() {
        let hay = v.compared_path(d as int, o.match_case);
        assert(all_occur(hay, a) <==> all_occur(hay, b)) by {
            if all_occur(hay, a) {
                assert forall|t: int| 0 <= t < b.len() implies occurs(hay, #[trigger] b[t]) by {
                    assert(b.contains(b[t]));
                    assert(a.contains(b[t]));
                    let q = choose|q: int| 0 <= q < a.len() && a[q] == b[t];
                    assert(occurs(hay, a[q]));
                }
            }
            if all_occur(hay, b) {
                assert forall|t: int| 0 <= t < a.len() implies occurs(hay, #[trigger] a[t]) by {
                    assert(a.contains(a[t]));
                    let q = choose|q: int| 0 <= q < b.len() && b[q] == a[t];
                    assert(occurs(hay, b[q]));
                }
            }
        }
        assert(v.terms_match(a, o)(d as int) == v.terms_match(b, o)(d as int));
    }
}

/// A search returns no more than `limit` paths, all of them if there are no
/// more, and a larger limit only adds to the end.
pub proof fn limit_only_cuts(nodes: Seq<Node>, ids: Seq<u32>, low: int, high: int)
    requires
        0 <= low <= high,
    ensures
        answers(nodes, ids, low).len() <= low,
        ids.len() <= low ==> answers(nodes, ids, low) == paths_of(nodes, ids),
        answers(nodes, ids, low).len() <= answers(nodes, ids, high).len(),
        answers(nodes, ids, high).take(answers(nodes, ids, low).len() as int) == answers(
            nodes,
            ids,
            low,
        ),
{
    assert(answers(nodes, ids, high).take(answers(nodes, ids, low).len() as int) =~= answers(
        nodes,
        ids,
        low,
    ));
}

} // verus!
