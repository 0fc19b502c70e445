//! Cutting a string at a separator.

use vstd::prelude::*;
use crate::bytes::views;

verus! {

/// What stands between the separators: one piece more than there are
/// separators.
pub open spec fn pieces<T>(s: Seq<T>, sep: T) -> Seq<Seq<T>>
    decreases s.len(),
{
    if s.len() == 0 {
        seq![seq![]]
    } else {
        let before = pieces(s.drop_last(), sep);
        if s.last() == sep {
            before.push(seq![])
        } else {
            before.drop_last().push(before.last().push(s.last()))
        }
    }
}

/// Where `c` first stands in `s`; the length of `s` if it does not.
pub open spec fn first_of<T>(s: Seq<T>, c: T) -> nat
    decreases s.len(),
{
    if s.len() == 0 || s[0] == c {
        0
    } else {
        1 + first_of(s.skip(1), c)
    }
}

pub proof fn lemma_first_of<T>(s: Seq<T>, c: T)
    ensures
        first_of(s, c) <= s.len(),
        first_of(s, c) < s.len() ==> s[first_of(s, c) as int] == c,
        forall|i: int| 0 <= i < first_of(s, c) ==> #[trigger] s[i] != c,
    decreases s.len(),
{
    if s.len() > 0 && s[0] != c {
        lemma_first_of(s.skip(1), c);
        assert forall|i: int| 0 <= i < first_of(s, c) implies #[trigger] s[i] != c by {
            if i > 0 {
                assert(s.skip(1)[i - 1] == s[i]);
            }
        }
    }
}

pub proof fn lemma_first_of_is<T>(s: Seq<T>, c: T, k: int)
    requires
        0 <= k <= s.len(),
        k < s.len() ==> s[k] == c,
        forall|i: int| 0 <= i < k ==> #[trigger] s[i] != c,
    ensures
        first_of(s, c) == k,
{
    lemma_first_of(s, c);
}

pub proof fn lemma_pieces_some<T>(s: Seq<T>, sep: T)
    ensures
        pieces(s, sep).len() > 0,
    decreases s.len(),
{
    if s.len() > 0 {
        lemma_pieces_some(s.drop_last(), sep);
    }
}

/// A run without the separator extends the last piece.
pub proof fn lemma_pieces_run<T>(s: Seq<T>, run: Seq<T>, sep: T)
    requires
        !run.contains(sep),
    ensures
        pieces(s + run, sep) == pieces(s, sep).drop_last().push(pieces(s, sep).last() + run),
    decreases run.len(),
{
    lemma_pieces_some(s, sep);
    let before = pieces(s, sep);
    if run.len() == 0 {
        assert(s + run =~= s);
        assert(before.last() + run =~= before.last());
        assert(before.drop_last().push(before.last()) =~= before);
    } else {
        let head = run.drop_last();
        assert forall|i: int| 0 <= i < head.len() implies head[i] != sep by {
            assert(run.contains(run[i]));
        }
        assert(run.contains(run.last()));
        lemma_pieces_run(s, head, sep);
        assert((s + run).drop_last() =~= s + head);
        let mid = pieces(s + head, sep);
        assert(mid.drop_last() =~= before.drop_last());
        assert((before.last() + head).push(run.last()) =~= before.last() + run);
    }
}

/// No piece holds the separator, and each holds only what `s` holds.
pub proof fn lemma_pieces_from<T>(s: Seq<T>, sep: T)
    ensures
        forall|i: int, k: int|
            0 <= i < pieces(s, sep).len() && 0 <= k < pieces(s, sep)[i].len() ==> (
            #[trigger] pieces(s, sep)[i][k]) != sep && s.contains(pieces(s, sep)[i][k]),
    decreases s.len(),
{
    if s.len() > 0 {
        let t = s.drop_last();
        lemma_pieces_from(t, sep);
        lemma_pieces_some(t, sep);
        let before = pieces(t, sep);
        let all = pieces(s, sep);
        assert forall|i: int, k: int|
            0 <= i < all.len() && 0 <= k < all[i].len() implies (#[trigger] all[i][k]) != sep
            && s.contains(all[i][k]) by {
            if i < before.len() - 1 || (s.last() == sep && i == before.len() - 1) {
                assert(all[i] == before[i]);
                assert(before[i][k] != sep && t.contains(before[i][k]));
                let at = choose|at: int| 0 <= at < t.len() && t[at] == before[i][k];
                assert(s[at] == all[i][k]);
            } else if s.last() != sep {
                let last = before[before.len() - 1];
                assert(all[i] == last.push(s.last()));
                if k < last.len() {
                    assert(before[before.len() - 1][k] != sep && t.contains(last[k]));
                    let at = choose|at: int| 0 <= at < t.len() && t[at] == last[k];
                    assert(s[at] == all[i][k]);
                } else {
                    assert(s[s.len() - 1] == all[i][k]);
                }
            }
        }
    }
}

/// Cuts bytes at `sep`.
pub fn split_bytes(s: &[u8], sep: u8) -> (out: Vec<Vec<u8>>)
    ensures
        views(out@) == pieces(s@, sep),
{
    let mut out: Vec<Vec<u8>> = Vec::new();
    let mut cur: Vec<u8> = Vec::new();
    let mut i: usize = 0;
    assert(views(out@).push(cur@) =~= pieces(s@.take(0), sep));
    while i < s.len()
        invariant
            i <= s.len(),
            views(out@).push(cur@) == pieces(s@.take(i as int), sep),
        decreases s.len() - i,
    {
        let c = s[i];
        let ghost before = views(out@);
        let ghost cur0 = cur@;
        assert(s@.take(i + 1).drop_last() =~= s@.take(i as int));
        assert(before.push(cur0).drop_last() =~= before);
        if c == sep {
            out.push(cur);
            cur = Vec::new();
            assert(views(out@) =~= before.push(cur0));
            assert(cur@ =~= Seq::<u8>::empty());
        } else {
            cur.push(c);
        }
        i = i + 1;
    }
    let ghost before = views(out@);
    assert(s@.take(i as int) =~= s@);
    let ghost last = cur@;
    out.push(cur);
    assert(views(out@) =~= before.push(last));
    out
}

/// Cuts characters at `sep`.
pub fn split_chars(s: &Vec<char>, sep: char) -> (out: Vec<Vec<char>>)
    ensures
        views(out@) == pieces(s@, sep),
{
    let mut out: Vec<Vec<char>> = Vec::new();
    let mut cur: Vec<char> = Vec::new();
    let mut i: usize = 0;
    assert(views(out@).push(cur@) =~= pieces(s@.take(0), sep));
    while i < s.len()
        invariant
            i <= s.len(),
            views(out@).push(cur@) == pieces(s@.take(i as int), sep),
        decreases s.len() - i,
    {
        let c = s[i];
        let ghost before = views(out@);
        let ghost cur0 = cur@;
        assert(s@.take(i + 1).drop_last() =~= s@.take(i as int));
        assert(before.push(cur0).drop_last() =~= before);
        if c == sep {
            out.push(cur);
            cur = Vec::new();
            assert(views(out@) =~= before.push(cur0));
            assert(cur@ =~= Seq::<char>::empty());
        } else {
            cur.push(c);
        }
        i = i + 1;
    }
    let ghost before = views(out@);
    assert(s@.take(i as int) =~= s@);
    let ghost last = cur@;
    out.push(cur);
    assert(views(out@) =~= before.push(last));
    out
}

/// Where `c` first stands in `s[from..to]`, counted from the start of `s`;
/// `to` if it does not.
pub fn find_char(s: &Vec<char>, from: usize, to: usize, c: char) -> (at: usize)
    requires
        from <= to <= s.len(),
    ensures
        from <= at <= to,
        at - from == first_of(s@.subrange(from as int, to as int), c),
{
    let ghost part = s@.subrange(from as int, to as int);
    let mut i: usize = from;
    while i < to
        invariant
            from <= i <= to <= s.len(),
            part == s@.subrange(from as int, to as int),
            forall|k: int| 0 <= k < i - from ==> #[trigger] part[k] != c,
        decreases to - i,
    {
        assert(part[i - from] == s@[i as int]);
        if s[i] == c {
            proof {
                lemma_first_of_is(part, c, i - from);
            }
            return i;
        }
        i = i + 1;
    }
    proof {
        lemma_first_of_is(part, c, i - from);
    }
    i
}

/// Where `c` last stands in `s`; -1 if it does not.
pub open spec fn last_at<T>(s: Seq<T>, c: T) -> int
    decreases s.len(),
{
    if s.len() == 0 {
        -1
    } else if s.last() == c {
        s.len() - 1
    } else {
        last_at(s.drop_last(), c)
    }
}

/// Behind the last `c` in `s`; 0 if there is none.
pub fn after_last_char(s: &Vec<char>, c: char) -> (at: usize)
    ensures
        at == last_at(s@, c) + 1,
        at <= s@.len(),
{
    let mut n: usize = s.len();
    assert(s@.take(n as int) =~= s@);
    while n > 0 && s[n - 1] != c
        invariant
            n <= s@.len(),
            last_at(s@.take(n as int), c) == last_at(s@, c),
        decreases n,
    {
        assert(s@.take(n as int).drop_last() =~= s@.take(n - 1));
        n = n - 1;
    }
    n
}

/// Behind the last `c` in `s`; 0 if there is none.
pub fn after_last_byte(s: &[u8], c: u8) -> (at: usize)
    ensures
        at == last_at(s@, c) + 1,
        at <= s@.len(),
{
    let mut n: usize = s.len();
    assert(s@.take(n as int) =~= s@);
    while n > 0 && s[n - 1] != c
        invariant
            n <= s@.len(),
            last_at(s@.take(n as int), c) == last_at(s@, c),
        decreases n,
    {
        assert(s@.take(n as int).drop_last() =~= s@.take(n - 1));
        n = n - 1;
    }
    n
}

/// What stands before a separator and what stands behind it are cut apart, each
/// by itself.
pub proof fn pieces_part_at_separators<T>(a: Seq<T>, b: Seq<T>, sep: T)
    ensures
        pieces(a + seq![sep] + b, sep) == pieces(a, sep) + pieces(b, sep),
    decreases b.len(),
{
    let s = a + seq![sep] + b;
    lemma_pieces_some(a, sep);
    lemma_pieces_some(b, sep);
    if b.len() == 0 {
        assert(s.drop_last() =~= a);
        assert(pieces(s, sep) =~= pieces(a, sep) + pieces(b, sep));
    } else {
        let t = b.drop_last();
        pieces_part_at_separators(a, t, sep);
        lemma_pieces_some(t, sep);
        assert(s.drop_last() =~= a + seq![sep] + t);
        let before = pieces(a, sep) + pieces(t, sep);
        assert(before.last() == pieces(t, sep).last());
        assert(before.drop_last() =~= pieces(a, sep) + pieces(t, sep).drop_last());
        assert(pieces(s, sep) =~= pieces(a, sep) + pieces(b, sep));
    }
}

/// What holds no separator is one piece.
pub proof fn runs_are_not_parted<T>(s: Seq<T>, sep: T)
    requires
        !s.contains(sep),
    ensures
        pieces(s, sep) == seq![s],
{
    let none = Seq::<T>::empty();
    lemma_pieces_run(none, s, sep);
    assert(none + s =~= s);
    assert(pieces(none, sep) =~= seq![none]);
    assert(pieces(s, sep) =~= seq![s]);
}

/// The last separator is found, and nothing behind it is one.
pub proof fn nothing_follows_the_last<T>(a: Seq<T>, b: Seq<T>, c: T)
    requires
        !b.contains(c),
    ensures
        last_at(a + seq![c] + b, c) == a.len(),
        last_at(b, c) == -1,
    decreases b.len(),
{
    let s = a + seq![c] + b;
    if b.len() > 0 {
        let t = b.drop_last();
        assert forall|i: int| 0 <= i < t.len() implies t[i] != c by {
            assert(b.contains(b[i]));
        }
        assert(b.contains(b.last()));
        assert(s.drop_last() =~= a + seq![c] + t);
        nothing_follows_the_last(a, t, c);
    }
}

} // verus!
