//! Paths by their components: repeated separators, and dots that stand for the
//! folder itself, do not count.

use vstd::prelude::*;
use crate::bytes::{copy, copy_range, same, views, DOT, SLASH};
use crate::split::{
    after_last_byte, last_at, lemma_pieces_some, nothing_follows_the_last, pieces,
    pieces_part_at_separators, runs_are_not_parted, split_bytes,
};

verus! {

/// Starts at the root.
pub open spec fn rooted(path: Seq<u8>) -> bool {
    path.len() > 0 && path[0] == SLASH
}

/// A piece between separators that counts: neither nothing nor a dot, except
/// for a dot at the start of a relative path.
pub open spec fn counts(piece: Seq<u8>, leading: bool) -> bool {
    piece.len() > 0 && (piece != seq![DOT] || leading)
}

/// The components among the first `k` pieces.
pub open spec fn counted(list: Seq<Seq<u8>>, from_root: bool, k: nat) -> Seq<Seq<u8>>
    decreases k,
{
    if k == 0 {
        seq![]
    } else {
        let before = counted(list, from_root, (k - 1) as nat);
        if counts(list[k - 1], k == 1 && !from_root) {
            before.push(list[k - 1])
        } else {
            before
        }
    }
}

/// The components of a path.
pub open spec fn comps(path: Seq<u8>) -> Seq<Seq<u8>> {
    let all = pieces(path, SLASH);
    counted(all, rooted(path), all.len())
}

/// The components of a path.
pub fn components(path: &[u8]) -> (out: Vec<Vec<u8>>)
    ensures
        views(out@) == comps(path@),
{
    let list = split_bytes(path, SLASH);
    let ghost all = pieces(path@, SLASH);
    let from_root = path.len() > 0 && path[0] == SLASH;
    let mut out: Vec<Vec<u8>> = Vec::new();
    let mut i: usize = 0;
    assert(views(out@) =~= Seq::<Seq<u8>>::empty());
    while i < list.len()
        invariant
            i <= list@.len(),
            views(list@) == all,
            from_root == rooted(path@),
            views(out@) == counted(all, from_root, i as nat),
        decreases list@.len() - i,
    {
        assert(all[i as int] == list@[i as int]@);
        let piece = list[i].as_slice();
        let dot = piece.len() == 1 && piece[0] == DOT;
        proof {
            if dot {
                assert(piece@ =~= seq![DOT]);
            }
            assert(dot == (piece@ == seq![DOT]));
        }
        if piece.len() > 0 && (!dot || (i == 0 && !from_root)) {
            let ghost before = views(out@);
            let c = copy(piece);
            out.push(c);
            assert(views(out@) =~= before.push(c@));
        }
        i = i + 1;
    }
    out
}

/// The same components, from the same start.
pub open spec fn alike(a: Seq<u8>, b: Seq<u8>) -> bool {
    rooted(a) == rooted(b) && comps(a) == comps(b)
}

/// Do two paths have the same components?
pub fn same_path(a: &[u8], b: &[u8]) -> (r: bool)
    ensures
        r == alike(a@, b@),
{
    let from_a = a.len() > 0 && a[0] == SLASH;
    let from_b = b.len() > 0 && b[0] == SLASH;
    if from_a != from_b {
        return false;
    }
    let x = components(a);
    let y = components(b);
    assert(comps(a@).len() == x@.len() && comps(b@).len() == y@.len());
    if x.len() != y.len() {
        return false;
    }
    let mut i: usize = 0;
    while i < x.len()
        invariant
            i <= x@.len(),
            x@.len() == y@.len(),
            views(x@) == comps(a@),
            views(y@) == comps(b@),
            forall|k: int| 0 <= k < i ==> #[trigger] comps(a@)[k] == comps(b@)[k],
        decreases x@.len() - i,
    {
        assert(comps(a@)[i as int] == x@[i as int]@ && comps(b@)[i as int] == y@[i as int]@);
        if !same(x[i].as_slice(), y[i].as_slice()) {
            return false;
        }
        i = i + 1;
    }
    assert(comps(a@) =~= comps(b@));
    true
}

/// One of `list` has the components of `p`.
pub open spec fn has_alike(list: Seq<Seq<u8>>, p: Seq<u8>) -> bool {
    exists|i: int| 0 <= i < list.len() && alike(#[trigger] list[i], p)
}

/// Is `p` one of `list`, however the two are written?
pub fn has_path(list: &Vec<Vec<u8>>, p: &[u8]) -> (r: bool)
    ensures
        r == has_alike(views(list@), p@),
{
    let mut i: usize = 0;
    while i < list.len()
        invariant
            i <= list@.len(),
            forall|k: int| 0 <= k < i ==> !alike(#[trigger] views(list@)[k], p@),
        decreases list@.len() - i,
    {
        assert(views(list@)[i as int] == list@[i as int]@);
        if same_path(list[i].as_slice(), p) {
            return true;
        }
        i = i + 1;
    }
    false
}

/// The last component, unless it stands for another folder.
pub open spec fn last_name(path: Seq<u8>) -> Option<Seq<u8>> {
    let c = comps(path);
    if c.len() == 0 || c.last() == seq![DOT] || c.last() == seq![DOT, DOT] {
        None
    } else {
        Some(c.last())
    }
}

/// The name of a path: its last component, or the whole where there is none.
pub open spec fn name_bytes(path: Seq<u8>) -> Seq<u8> {
    match last_name(path) {
        Some(name) => name,
        None => path,
    }
}

/// The name of a path: its last component, or the whole where there is none.
pub fn file_name(path: &[u8]) -> (name: Vec<u8>)
    ensures
        name@ == name_bytes(path@),
{
    let c = components(path);
    let n: usize = c.len();
    if n > 0 {
        let last = c[n - 1].as_slice();
        assert(comps(path@).last() == last@);
        let one = last.len() == 1 && last[0] == DOT;
        let two = last.len() == 2 && last[0] == DOT && last[1] == DOT;
        proof {
            if one {
                assert(last@ =~= seq![DOT]);
            }
            if two {
                assert(last@ =~= seq![DOT, DOT]);
            }
            assert(one == (last@ == seq![DOT]));
            assert(two == (last@ == seq![DOT, DOT]));
        }
        if !one && !two {
            return copy(last);
        }
    }
    copy(path)
}

/// A path without what does not count at its end.
pub open spec fn end_tidied(path: Seq<u8>) -> Seq<u8>
    decreases path.len(),
{
    if path.len() > 1 && path.last() == SLASH {
        end_tidied(path.drop_last())
    } else if path.len() > 1 && path.last() == DOT && path[path.len() - 2] == SLASH {
        end_tidied(path.drop_last())
    } else {
        path
    }
}

/// How much of `path[..n]` is left without what does not count at its end.
fn tidy_end(path: &[u8], n: usize) -> (m: usize)
    requires
        n <= path.len(),
    ensures
        m <= n,
        path@.take(m as int) == end_tidied(path@.take(n as int)),
{
    let mut m: usize = n;
    while m > 1 && (path[m - 1] == SLASH || (path[m - 1] == DOT && path[m - 2] == SLASH))
        invariant
            m <= n <= path@.len(),
            end_tidied(path@.take(m as int)) == end_tidied(path@.take(n as int)),
        decreases m,
    {
        assert(path@.take(m as int).drop_last() =~= path@.take(m - 1));
        m = m - 1;
    }
    m
}

/// The folder that holds a path, as far as the path itself tells: the path
/// without its last component, or the root where it has none.
pub open spec fn parent_bytes(path: Seq<u8>) -> Seq<u8> {
    if comps(path).len() == 0 {
        seq![SLASH]
    } else {
        let c = end_tidied(path);
        end_tidied(c.take(last_at(c, SLASH) + 1))
    }
}

/// The folder that holds a path.
pub fn parent_dir(path: &[u8]) -> (dir: Vec<u8>)
    ensures
        dir@ == parent_bytes(path@),
{
    if components(path).len() == 0 {
        let mut root: Vec<u8> = Vec::new();
        root.push(SLASH);
        assert(root@ =~= seq![SLASH]);
        return root;
    }
    assert(path@.take(path@.len() as int) =~= path@);
    let n = tidy_end(path, path.len());
    let c = copy_range(path, 0, n);
    assert(c@ =~= path@.take(n as int));
    let at = after_last_byte(c.as_slice(), SLASH);
    let m = tidy_end(c.as_slice(), at);
    let dir = copy_range(c.as_slice(), 0, m);
    assert(dir@ =~= c@.take(m as int));
    dir
}

proof fn lemma_counted_concat(x: Seq<Seq<u8>>, y: Seq<Seq<u8>>, from_root: bool, k: nat)
    requires
        x.len() > 0,
        k <= y.len(),
    ensures
        counted(x + y, from_root, x.len() + k) == counted(x, from_root, x.len()) + counted(
            y,
            true,
            k,
        ),
    decreases k,
{
    let before = counted(x, from_root, x.len());
    if k == 0 {
        lemma_counted_prefix(x, y, from_root, x.len());
        assert(before + counted(y, true, 0) =~= before);
    } else {
        lemma_counted_concat(x, y, from_root, (k - 1) as nat);
        assert((x + y)[x.len() + k - 1] == y[k - 1]);
        let tail = counted(y, true, (k - 1) as nat);
        assert((before + tail).push(y[k - 1]) =~= before + tail.push(y[k - 1]));
    }
}

proof fn lemma_counted_prefix(x: Seq<Seq<u8>>, y: Seq<Seq<u8>>, from_root: bool, k: nat)
    requires
        k <= x.len(),
    ensures
        counted(x + y, from_root, k) == counted(x, from_root, k),
    decreases k,
{
    if k > 0 {
        lemma_counted_prefix(x, y, from_root, (k - 1) as nat);
    }
}

/// The components of a path are those before any of its separators and those
/// behind it.
pub proof fn components_part_at_slashes(a: Seq<u8>, b: Seq<u8>)
    ensures
        comps(a + seq![0x2fu8] + b) == comps(a) + comps(seq![0x2fu8] + b),
{
    let slash = seq![0x2fu8];
    let none = Seq::<u8>::empty();
    let (x, y) = (pieces(a, SLASH), pieces(b, SLASH));
    pieces_part_at_separators(a, b, SLASH);
    pieces_part_at_separators(none, b, SLASH);
    lemma_pieces_some(a, SLASH);
    assert(none + slash + b =~= slash + b);
    assert(pieces(none, SLASH) =~= seq![none]);
    reveal_with_fuel(counted, 2);
    assert(counted(seq![none], true, 1) =~= Seq::<Seq<u8>>::empty());
    lemma_counted_concat(seq![none], y, true, y.len());
    assert(comps(slash + b) =~= counted(y, true, y.len()));
    if a.len() == 0 {
        assert(a =~= none);
        assert(comps(none) =~= Seq::<Seq<u8>>::empty());
        assert(a + slash + b =~= slash + b);
        assert(comps(a) + comps(slash + b) =~= comps(slash + b));
    } else {
        lemma_counted_concat(x, y, rooted(a), y.len());
        assert((a + slash + b)[0] == a[0]);
    }
}

/// A name is the only component of the path that it makes, at the root or alone;
/// an empty name and a dot behind a separator are none.
pub proof fn names_are_components(name: Seq<u8>)
    requires
        !name.contains(0x2f),
    ensures
        comps(seq![0x2fu8] + name) == (if name.len() == 0 || name == seq![0x2eu8] {
            Seq::<Seq<u8>>::empty()
        } else {
            seq![name]
        }),
        comps(name) == (if name.len() == 0 {
            Seq::<Seq<u8>>::empty()
        } else {
            seq![name]
        }),
{
    let none = Seq::<u8>::empty();
    pieces_part_at_separators(none, name, SLASH);
    runs_are_not_parted(name, SLASH);
    assert(none + seq![SLASH] + name =~= seq![SLASH] + name);
    assert(pieces(none, SLASH) =~= seq![none]);
    assert(pieces(none, SLASH) + seq![name] =~= seq![none, name]);
    reveal_with_fuel(counted, 3);
    assert(!rooted(name)) by {
        if rooted(name) {
            assert(name[0] == SLASH);
        }
    }
    assert(comps(name) =~= (if name.len() == 0 {
        Seq::<Seq<u8>>::empty()
    } else {
        seq![name]
    }));
    assert(comps(seq![SLASH] + name) =~= (if name.len() == 0 || name == seq![DOT] {
        Seq::<Seq<u8>>::empty()
    } else {
        seq![name]
    }));
}

/// How often separators are repeated, dots between them, and a separator or a
/// dot at the end make no difference to a path.
pub proof fn spelling_makes_no_difference(a: Seq<u8>, b: Seq<u8>)
    requires
        a.len() > 0,
    ensures
        alike(a + seq![0x2fu8, 0x2f] + b, a + seq![0x2fu8] + b),
        alike(a + seq![0x2fu8, 0x2e, 0x2f] + b, a + seq![0x2fu8] + b),
        alike(a + seq![0x2fu8], a),
        alike(a + seq![0x2fu8, 0x2e], a),
{
    let slash = seq![0x2fu8];
    let none = Seq::<u8>::empty();
    let (two, dot) = (seq![0x2fu8, 0x2f], seq![0x2fu8, 0x2e]);
    components_part_at_slashes(a, b);
    assert(a + two + b =~= (a + slash) + slash + b);
    components_part_at_slashes(a + slash, b);
    components_part_at_slashes(a, none);
    names_are_components(none);
    assert(slash + none =~= slash);
    assert(a + slash + none =~= a + slash);
    assert(comps(a + slash) =~= comps(a));
    assert(!seq![0x2eu8].contains(0x2f));
    names_are_components(seq![0x2eu8]);
    components_part_at_slashes(a, seq![0x2eu8]);
    assert(slash + seq![0x2eu8] =~= dot);
    assert(a + slash + seq![0x2eu8] =~= a + dot);
    assert(comps(a + dot) =~= comps(a));
    assert(a + seq![0x2fu8, 0x2e, 0x2f] + b =~= (a + dot) + slash + b);
    components_part_at_slashes(a + dot, b);
    assert((a + slash + b)[0] == a[0]);
    assert((a + two + b)[0] == a[0]);
    assert((a + slash)[0] == a[0]);
    assert((a + dot)[0] == a[0]);
    assert((a + seq![0x2fu8, 0x2e, 0x2f] + b)[0] == a[0]);
}

/// Paths of different names in one folder are not taken for each other, and
/// neither is a path for what lies in it.
pub proof fn different_names_differ(dir: Seq<u8>, x: Seq<u8>, y: Seq<u8>)
    requires
        !x.contains(0x2f),
        !y.contains(0x2f),
        x.len() > 0,
        x != seq![0x2eu8],
        x != y,
    ensures
        !alike(dir + seq![0x2fu8] + x, dir + seq![0x2fu8] + y),
        !alike(dir + seq![0x2fu8] + x, dir),
{
    let slash = seq![0x2fu8];
    components_part_at_slashes(dir, x);
    components_part_at_slashes(dir, y);
    names_are_components(x);
    names_are_components(y);
    let (a, b) = (comps(dir + slash + x), comps(dir + slash + y));
    assert(a.last() == x);
    assert(a.len() == comps(dir).len() + 1);
    if y.len() == 0 || y == seq![0x2eu8] {
        assert(b.len() == comps(dir).len());
    } else {
        assert(b.last() == y);
    }
}

/// A list holds a path when it holds any spelling of it.
pub proof fn listed_paths_are_found(list: Seq<Seq<u8>>, i: int, p: Seq<u8>)
    requires
        0 <= i < list.len(),
    ensures
        alike(list[i], p) ==> has_alike(list, p),
        has_alike(list, list[i]),
        !has_alike(Seq::<Seq<u8>>::empty(), p),
{
    assert(alike(list[i], list[i]));
}

proof fn lemma_end_tidied(s: Seq<u8>)
    requires
        s.len() > 0,
        s.len() > 1 ==> s.last() != SLASH && !(s.last() == DOT && s[s.len() - 2] == SLASH),
    ensures
        end_tidied(s) == s,
        s != seq![SLASH] ==> end_tidied(s + seq![SLASH]) == s,
{
    let t = s + seq![SLASH];
    assert(t.drop_last() =~= s);
    assert(t.last() == SLASH && t.len() > 1);
    assert(end_tidied(t) == end_tidied(s));
}

/// A path in a folder has the name behind the last separator, and that folder
/// for its parent, with or without a separator at its end.
pub proof fn paths_are_folder_and_name(dir: Seq<u8>, name: Seq<u8>)
    requires
        dir.len() > 0,
        dir.last() != 0x2f,
        dir.last() != 0x2e,
        name.len() > 0,
        !name.contains(0x2f),
        name != seq![0x2eu8],
        name != seq![0x2eu8, 0x2e],
    ensures
        name_bytes(dir + seq![0x2fu8] + name) == name,
        name_bytes(dir + seq![0x2fu8] + name + seq![0x2fu8]) == name,
        parent_bytes(dir + seq![0x2fu8] + name) == dir,
        parent_bytes(dir + seq![0x2fu8] + name + seq![0x2fu8]) == dir,
{
    let slash = seq![0x2fu8];
    let p = dir + slash + name;
    let q = p + slash;
    components_part_at_slashes(dir, name);
    names_are_components(name);
    spelling_makes_no_difference(p, name);
    assert(comps(p).last() == name);
    assert(name.contains(name.last()));
    assert(p.last() == name.last());
    if p.last() == DOT && p[p.len() - 2] == SLASH {
        if name.len() > 1 {
            assert(name.contains(name[name.len() - 2]));
        } else {
            assert(name =~= seq![DOT]);
        }
    }
    lemma_end_tidied(p);
    lemma_end_tidied(dir);
    assert(p.len() > 1);
    nothing_follows_the_last(dir, name, SLASH);
    assert(p.take(dir.len() as int + 1) =~= dir + slash);
}

/// At the top, the parent is the root; a name alone has no folder.
pub proof fn top_paths_lie_in_the_root(name: Seq<u8>)
    requires
        name.len() > 0,
        !name.contains(0x2f),
        name != seq![0x2eu8],
        name != seq![0x2eu8, 0x2e],
    ensures
        name_bytes(seq![0x2fu8] + name) == name,
        parent_bytes(seq![0x2fu8] + name) == seq![0x2fu8],
        parent_bytes(seq![0x2fu8]) == seq![0x2fu8],
        name_bytes(seq![0x2fu8]) == seq![0x2fu8],
        parent_bytes(name) == Seq::<u8>::empty(),
        name_bytes(name) == name,
{
    let slash = seq![0x2fu8];
    let none = Seq::<u8>::empty();
    let p = slash + name;
    names_are_components(name);
    names_are_components(none);
    assert(slash + none =~= slash);
    assert(name.contains(name.last()));
    assert(p.last() == name.last());
    if p.last() == DOT && p[p.len() - 2] == SLASH {
        if name.len() > 1 {
            assert(name.contains(name[name.len() - 2]));
        } else {
            assert(name =~= seq![DOT]);
        }
    }
    if name.len() > 1 {
        assert(name.contains(name[name.len() - 2]));
    }
    lemma_end_tidied(p);
    lemma_end_tidied(name);
    nothing_follows_the_last(none, name, SLASH);
    assert(none + slash + name =~= p);
    assert(p.take(1) =~= slash);
    assert(name.take(0) =~= none);
}

} // verus!
