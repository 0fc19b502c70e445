//! Knuth-Morris-Pratt matching, one byte at a time, so that a match may run
//! over a boundary between two pieces of text.

use vstd::prelude::*;
use crate::bytes::{occurs, occurs_at};

verus! {

/// The first `k` bytes of `p` are the last `k` bytes of `t`.
pub open spec fn prefix_at_end(p: Seq<u8>, k: int, t: Seq<u8>) -> bool {
    &&& 0 <= k <= p.len()
    &&& k <= t.len()
    &&& forall|i: int| 0 <= i < k ==> #[trigger] p[i] == t[t.len() - k + i]
}

/// `k` is the length of the longest prefix of `p`, shorter than `bound`, that
/// ends `t`.
pub open spec fn longest_below(p: Seq<u8>, t: Seq<u8>, bound: int, k: int) -> bool {
    &&& 0 <= k < bound
    &&& prefix_at_end(p, k, t)
    &&& forall|j: int| k < j < bound ==> !#[trigger] prefix_at_end(p, j, t)
}

/// `f[i]` is the length of the longest proper border of `p[..i + 1]`.
pub open spec fn is_failure(p: Seq<u8>, f: Seq<usize>) -> bool {
    &&& f.len() == p.len()
    &&& forall|i: int|
        0 <= i < p.len() ==> longest_below(p, p.take(i + 1), i + 1, #[trigger] f[i] as int)
}

/// `k` is the state of the automaton for `p` after the text `t`.
pub open spec fn is_state(p: Seq<u8>, t: Seq<u8>, k: int) -> bool {
    longest_below(p, t, p.len() as int, k)
}

/// Among the prefixes no longer than one that ends `t`, those that end `t`
/// are the ones that end that prefix.
proof fn lemma_shorter(p: Seq<u8>, k: int, t: Seq<u8>, j: int)
    requires
        prefix_at_end(p, k, t),
        0 <= j <= k,
    ensures
        prefix_at_end(p, j, t) <==> prefix_at_end(p, j, p.take(k)),
{
    let q = p.take(k);
    if prefix_at_end(p, j, t) {
        assert forall|i: int| 0 <= i < j implies #[trigger] p[i] == q[q.len() - j + i] by {
            assert(p[k - j + i] == t[t.len() - k + (k - j + i)]);
        }
    }
    if prefix_at_end(p, j, q) {
        assert forall|i: int| 0 <= i < j implies #[trigger] p[i] == t[t.len() - j + i] by {
            assert(p[i] == q[q.len() - j + i]);
            assert(p[k - j + i] == t[t.len() - k + (k - j + i)]);
        }
    }
}

/// A prefix ends `t.push(c)` exactly if it is one byte longer than one that
/// ends `t`, and that byte is `c`.
proof fn lemma_extend(p: Seq<u8>, t: Seq<u8>, c: u8, j: int)
    requires
        1 <= j <= p.len(),
    ensures
        prefix_at_end(p, j, t.push(c)) <==> (prefix_at_end(p, j - 1, t) && p[j - 1] == c),
{
    let u = t.push(c);
    if prefix_at_end(p, j, u) {
        assert(p[j - 1] == u[u.len() - j + (j - 1)]);
        assert forall|i: int| 0 <= i < j - 1 implies #[trigger] p[i] == t[t.len() - (j - 1) + i] by {
            assert(p[i] == u[u.len() - j + i]);
        }
    }
    if prefix_at_end(p, j - 1, t) && p[j - 1] == c {
        assert forall|i: int| 0 <= i < j implies #[trigger] p[i] == u[u.len() - j + i] by {
            if i < j - 1 {
                assert(p[i] == t[t.len() - (j - 1) + i]);
            }
        }
    }
}

/// Failing over to the next shorter border loses no candidate.
proof fn lemma_fall_back(p: Seq<u8>, f: Seq<usize>, t: Seq<u8>, k: int, bound: int, c: u8)
    requires
        0 < k < bound <= p.len(),
        f.len() >= k,
        longest_below(p, p.take(k), k, f[k - 1] as int),
        prefix_at_end(p, k, t),
        p[k] != c,
        forall|j: int| k < j < bound ==> !(#[trigger] prefix_at_end(p, j, t) && p[j] == c),
    ensures
        prefix_at_end(p, f[k - 1] as int, t),
        forall|j: int|
            f[k - 1] < j < bound ==> !(#[trigger] prefix_at_end(p, j, t) && p[j] == c),
{
    let g = f[k - 1] as int;
    lemma_shorter(p, k, t, g);
    assert forall|j: int| g < j < bound implies !(#[trigger] prefix_at_end(p, j, t) && p[j] == c) by {
        if j < k {
            lemma_shorter(p, k, t, j);
            assert(!prefix_at_end(p, j, p.take(k)));
        }
    }
}

/// The failure function of `p`.
pub fn kmp_failure(p: &[u8]) -> (f: Vec<usize>)
    ensures
        is_failure(p@, f@),
{
    let mut f: Vec<usize> = Vec::new();
    if p.len() == 0 {
        return f;
    }
    f.push(0);
    let mut k: usize = 0;
    let mut i: usize = 1;
    proof {
        assert(longest_below(p@, p@.take(1), 1, 0));
    }
    while i < p.len()
        invariant
            1 <= i <= p.len(),
            f.len() == i,
            k == f[i - 1],
            forall|m: int|
                0 <= m < i ==> longest_below(p@, p@.take(m + 1), m + 1, #[trigger] f@[m] as int),
        decreases p.len() - i,
    {
        let c = p[i];
        let ghost t = p@.take(i as int);
        assert(longest_below(p@, p@.take(i - 1 + 1), i - 1 + 1, f@[i - 1] as int));
        while k > 0 && p[k] != c
            invariant
                1 <= i < p.len(),
                f.len() == i,
                c == p@[i as int],
                t == p@.take(i as int),
                0 <= k < i,
                prefix_at_end(p@, k as int, t),
                forall|j: int|
                    k < j < i ==> !(#[trigger] prefix_at_end(p@, j, t) && p@[j] == c),
                forall|m: int|
                    0 <= m < i ==> longest_below(
                        p@,
                        p@.take(m + 1),
                        m + 1,
                        #[trigger] f@[m] as int,
                    ),
            decreases k,
        {
            proof {
                assert(longest_below(p@, p@.take(k - 1 + 1), k - 1 + 1, f@[k - 1] as int));
                lemma_fall_back(p@, f@, t, k as int, i as int, c);
            }
            k = f[k - 1];
        }
        let ghost k0 = k as int;
        if p[k] == c {
            k = k + 1;
        }
        proof {
            let u = p@.take(i + 1);
            assert(u =~= t.push(c));
            if p@[k0] == c {
                lemma_extend(p@, t, c, k0 + 1);
            }
            assert forall|j: int| k < j < i + 1 implies !#[trigger] prefix_at_end(p@, j, u) by {
                lemma_extend(p@, t, c, j);
                if j - 1 > k0 {
                    assert(!(prefix_at_end(p@, j - 1, t) && p@[j - 1] == c));
                }
            }
            assert(longest_below(p@, u, i + 1, k as int));
        }
        f.push(k);
        i = i + 1;
    }
    f
}

/// The automaton forgets everything about the text but its state.
proof fn lemma_forgets(p: Seq<u8>, t: Seq<u8>, state: int, c: u8, j: int)
    requires
        is_state(p, t, state),
        0 <= j <= p.len(),
    ensures
        prefix_at_end(p, j, t.push(c)) <==> prefix_at_end(p, j, p.take(state).push(c)),
{
    if j > 0 {
        let q = p.take(state);
        lemma_extend(p, t, c, j);
        lemma_extend(p, q, c, j);
        if j - 1 <= state {
            lemma_shorter(p, state, t, j - 1);
        } else {
            assert(!prefix_at_end(p, j - 1, t));
        }
    }
}

/// One step of the automaton for `p`: the state after one more byte, and
/// whether `p` ends there, whatever the text so far.
pub fn kmp_step(state: usize, c: u8, p: &[u8], f: &[usize]) -> (r: (usize, bool))
    requires
        is_failure(p@, f@),
        state < p.len(),
    ensures
        r.0 < p.len(),
        forall|t: Seq<u8>| #[trigger]
            is_state(p@, t, state as int) ==> is_state(p@, t.push(c), r.0 as int) && r.1
                == prefix_at_end(p@, p.len() as int, t.push(c)),
{
    let ghost t = p@.take(state as int);
    let r = step_from(state, c, p, f);
    proof {
        assert forall|s: Seq<u8>| #[trigger] is_state(p@, s, state as int) implies is_state(
            p@,
            s.push(c),
            r.0 as int,
        ) && r.1 == prefix_at_end(p@, p.len() as int, s.push(c)) by {
            lemma_forgets(p@, s, state as int, c, p.len() as int);
            lemma_forgets(p@, s, state as int, c, r.0 as int);
            assert forall|j: int| r.0 < j < p.len() implies !#[trigger] prefix_at_end(
                p@,
                j,
                s.push(c),
            ) by {
                lemma_forgets(p@, s, state as int, c, j);
                assert(!prefix_at_end(p@, j, t.push(c)));
            }
        }
    }
    r
}

/// A step after the text that the state stands for.
fn step_from(state: usize, c: u8, p: &[u8], f: &[usize]) -> (r: (usize, bool))
    requires
        is_failure(p@, f@),
        state < p.len(),
    ensures
        is_state(p@, p@.take(state as int).push(c), r.0 as int),
        r.1 == prefix_at_end(p@, p.len() as int, p@.take(state as int).push(c)),
{
    let ghost t = p@.take(state as int);
    let mut k: usize = state;
    assert(prefix_at_end(p@, state as int, t));
    while k > 0 && p[k] != c
        invariant
            is_failure(p@, f@),
            0 <= k < p.len(),
            prefix_at_end(p@, k as int, t),
            forall|j: int|
                k < j < p.len() ==> !(#[trigger] prefix_at_end(p@, j, t) && p@[j] == c),
        decreases k,
    {
        proof {
            assert(longest_below(p@, p@.take(k - 1 + 1), k - 1 + 1, f@[k - 1] as int));
            lemma_fall_back(p@, f@, t, k as int, p.len() as int, c);
        }
        k = f[k - 1];
    }
    let ghost k0 = k as int;
    let ghost u = t.push(c);
    if p[k] == c {
        k = k + 1;
    }
    proof {
        if p@[k0] == c {
            lemma_extend(p@, t, c, k0 + 1);
        }
        assert forall|j: int| k < j <= p.len() implies !#[trigger] prefix_at_end(p@, j, u) by {
            lemma_extend(p@, t, c, j);
            if j - 1 > k0 {
                assert(!(prefix_at_end(p@, j - 1, t) && p@[j - 1] == c));
            }
        }
        assert(prefix_at_end(p@, k as int, u));
    }
    if k == p.len() {
        proof {
            let g = f@[p.len() - 1] as int;
            assert(longest_below(
                p@,
                p@.take(p.len() - 1 + 1),
                p.len() - 1 + 1,
                f@[p.len() - 1] as int,
            ));
            lemma_shorter(p@, p.len() as int, u, g);
            assert(p@.take(p.len() as int) =~= p@);
            assert forall|j: int| g < j < p.len() implies !#[trigger] prefix_at_end(p@, j, u) by {
                lemma_shorter(p@, p.len() as int, u, j);
            }
        }
        (f[p.len() - 1], true)
    } else {
        (k, false)
    }
}

/// After the empty text the automaton is in state 0.
pub proof fn lemma_initial_state(p: Seq<u8>)
    requires
        p.len() > 0,
    ensures
        is_state(p, seq![], 0),
{
}

/// `p` occurs in `t.push(c)` exactly if it occurs in `t` or ends there.
pub proof fn lemma_occurs_push(t: Seq<u8>, c: u8, p: Seq<u8>)
    ensures
        occurs(t.push(c), p) <==> (occurs(t, p) || prefix_at_end(p, p.len() as int, t.push(c))),
{
    let u = t.push(c);
    if occurs(t, p) {
        let i = choose|i: int| occurs_at(t, p, i);
        assert(u.subrange(i, i + p.len()) =~= t.subrange(i, i + p.len()));
        assert(occurs_at(u, p, i));
    }
    if prefix_at_end(p, p.len() as int, u) {
        let i = u.len() - p.len();
        assert(u.subrange(i, i + p.len()) =~= p);
        assert(occurs_at(u, p, i));
    }
    if occurs(u, p) {
        let i = choose|i: int| occurs_at(u, p, i);
        if i + p.len() <= t.len() {
            assert(u.subrange(i, i + p.len()) =~= t.subrange(i, i + p.len()));
            assert(occurs_at(t, p, i));
        } else {
            assert forall|m: int| 0 <= m < p.len() implies #[trigger] p[m] == u[u.len() - p.len()
                + m] by {
                assert(u.subrange(i, i + p.len())[m] == u[i + m]);
            }
        }
    }
}

/// Feeds `piece` to the automaton. The second result says whether `p` ends
/// anywhere inside the piece.
pub fn kmp_feed(p: &[u8], f: &[usize], state: usize, piece: &[u8]) -> (r: (usize, bool))
    requires
        is_failure(p@, f@),
        state < p.len(),
    ensures
        r.0 < p.len(),
        forall|t: Seq<u8>| #[trigger]
            is_state(p@, t, state as int) ==> is_state(p@, t + piece@, r.0 as int) && (occurs(
                t + piece@,
                p@,
            ) <==> (occurs(t, p@) || r.1)),
{
    let mut k: usize = state;
    let mut hit = false;
    let mut i: usize = 0;
    assert forall|t: Seq<u8>| #[trigger] is_state(p@, t, state as int) implies fed(
        p@,
        t,
        piece@.take(0),
        k as int,
        hit,
    ) by {
        assert(t + piece@.take(0) =~= t);
    }
    while i < piece.len()
        invariant
            is_failure(p@, f@),
            k < p.len(),
            i <= piece.len(),
            forall|t: Seq<u8>| #[trigger]
                is_state(p@, t, state as int) ==> fed(
                    p@,
                    t,
                    piece@.take(i as int),
                    k as int,
                    hit,
                ),
        decreases piece.len() - i,
    {
        let ghost k0 = k as int;
        let ghost hit0 = hit;
        let (next, ended) = kmp_step(k, piece[i], p, f);
        k = next;
        hit = hit || ended;
        assert forall|t: Seq<u8>| #[trigger] is_state(p@, t, state as int) implies fed(
            p@,
            t,
            piece@.take(i + 1),
            k as int,
            hit,
        ) by {
            let sofar = t + piece@.take(i as int);
            assert(fed(p@, t, piece@.take(i as int), k0, hit0));
            assert(is_state(p@, sofar, k0));
            assert(t + piece@.take(i + 1) =~= sofar.push(piece@[i as int]));
            lemma_occurs_push(sofar, piece@[i as int], p@);
        }
        i = i + 1;
    }
    assert(piece@.take(i as int) =~= piece@);
    assert forall|t: Seq<u8>| #[trigger] is_state(p@, t, state as int) implies is_state(
        p@,
        t + piece@,
        k as int,
    ) && (occurs(t + piece@, p@) <==> (occurs(t, p@) || hit)) by {
        assert(fed(p@, t, piece@, k as int, hit));
    }
    (k, hit)
}

/// `k` is the state after `piece` has followed `t`, and `hit` tells whether
/// that brought an occurrence.
spec fn fed(p: Seq<u8>, t: Seq<u8>, piece: Seq<u8>, k: int, hit: bool) -> bool {
    is_state(p, t + piece, k) && (occurs(t + piece, p) <==> (occurs(t, p) || hit))
}

} // verus!
