//! Sets of entry ids, held as ascending sequences.

use vstd::prelude::*;

verus! {

/// The ids below `n` that satisfy `keep`, in ascending order.
pub open spec fn ids_where(keep: spec_fn(int) -> bool, n: nat) -> Seq<u32>
    decreases n,
{
    if n == 0 {
        seq![]
    } else if keep(n - 1) {
        ids_where(keep, (n - 1) as nat).push((n - 1) as u32)
    } else {
        ids_where(keep, (n - 1) as nat)
    }
}

/// Every element is larger than the ones before it.
pub open spec fn ascending(s: Seq<u32>) -> bool {
    forall|i: int, j: int| 0 <= i < j < s.len() ==> s[i] < s[j]
}

/// `ids_where` is ascending and holds exactly the ids that satisfy `keep`.
pub proof fn lemma_ids_where(keep: spec_fn(int) -> bool, n: nat)
    requires
        n <= 0x1_0000_0000,
    ensures
        ids_where(keep, n).len() <= n,
        ascending(ids_where(keep, n)),
        forall|j: int|
            0 <= j < ids_where(keep, n).len() ==> (#[trigger] ids_where(keep, n)[j]) < n && keep(
                ids_where(keep, n)[j] as int,
            ),
        forall|i: int| 0 <= i < n && #[trigger] keep(i) ==> ids_where(keep, n).contains(i as u32),
    decreases n,
{
    if n > 0 {
        let m = (n - 1) as nat;
        lemma_ids_where(keep, m);
        let before = ids_where(keep, m);
        if keep(n - 1) {
            let s = before.push(m as u32);
            assert forall|i: int| 0 <= i < n && #[trigger] keep(i) implies s.contains(i as u32) by {
                if i == m {
                    assert(s[before.len() as int] == i as u32);
                } else {
                    let k = choose|k: int| 0 <= k < before.len() && before[k] == i as u32;
                    assert(before.contains(i as u32));
                    assert(s[k] == i as u32);
                }
            }
        }
    }
}

/// Membership in `ids_where`, stated for one id.
pub proof fn lemma_ids_where_contains(keep: spec_fn(int) -> bool, n: nat, x: u32)
    requires
        n <= 0x1_0000_0000,
    ensures
        ids_where(keep, n).contains(x) <==> (x < n && keep(x as int)),
{
    lemma_ids_where(keep, n);
    let s = ids_where(keep, n);
    if s.contains(x) {
        let k = choose|k: int| 0 <= k < s.len() && s[k] == x;
        assert(s[k] < n);
    }
}

/// Only one ascending sequence holds exactly the ids that satisfy `keep`.
pub proof fn lemma_ids_where_unique(keep: spec_fn(int) -> bool, n: nat, s: Seq<u32>)
    requires
        n <= 0x1_0000_0000,
        ascending(s),
        forall|j: int| 0 <= j < s.len() ==> (#[trigger] s[j]) < n && keep(s[j] as int),
        forall|i: int| 0 <= i < n && #[trigger] keep(i) ==> s.contains(i as u32),
    ensures
        s == ids_where(keep, n),
    decreases n,
{
    if n == 0 {
        if s.len() > 0 {
            assert(s[0] < n);
        }
        assert(s =~= ids_where(keep, n));
    } else {
        let m = (n - 1) as nat;
        if keep(n - 1) {
            assert(s.contains(m as u32));
            let k = choose|k: int| 0 <= k < s.len() && s[k] == m as u32;
            if k < s.len() - 1 {
                assert(s[k] < s[s.len() - 1]);
                assert(s[s.len() - 1] < n);
            }
            let t = s.drop_last();
            assert forall|j: int| 0 <= j < t.len() implies (#[trigger] t[j]) < m && keep(
                t[j] as int,
            ) by {
                assert(t[j] == s[j]);
                assert(s[j] < s[k]);
            }
            assert forall|i: int| 0 <= i < m && #[trigger] keep(i) implies t.contains(
                i as u32,
            ) by {
                assert(s.contains(i as u32));
                let q = choose|q: int| 0 <= q < s.len() && s[q] == i as u32;
                assert(t[q] == i as u32);
            }
            assert(ascending(t));
            lemma_ids_where_unique(keep, m, t);
            assert(s =~= t.push(m as u32));
        } else {
            assert forall|j: int| 0 <= j < s.len() implies (#[trigger] s[j]) < m && keep(
                s[j] as int,
            ) by {
                assert(s[j] < n);
                if s[j] == m {
                    assert(keep(s[j] as int));
                }
            }
            lemma_ids_where_unique(keep, m, s);
        }
    }
}

/// Predicates that agree below `n` select the same ids.
pub proof fn lemma_ids_where_agree(f: spec_fn(int) -> bool, g: spec_fn(int) -> bool, n: nat)
    requires
        forall|i: int| 0 <= i < n ==> f(i) == #[trigger] g(i),
    ensures
        ids_where(f, n) == ids_where(g, n),
    decreases n,
{
    if n > 0 {
        lemma_ids_where_agree(f, g, (n - 1) as nat);
        assert(f(n - 1) == g(n - 1));
    }
}

/// Ids selected below `m` come first among those selected below `n`.
pub proof fn lemma_ids_where_prefix(keep: spec_fn(int) -> bool, m: nat, n: nat)
    requires
        m <= n,
    ensures
        ids_where(keep, m).len() <= ids_where(keep, n).len(),
        ids_where(keep, n).take(ids_where(keep, m).len() as int) == ids_where(keep, m),
    decreases n,
{
    if m < n {
        lemma_ids_where_prefix(keep, m, (n - 1) as nat);
        let k = ids_where(keep, m).len() as int;
        assert(ids_where(keep, n).take(k) =~= ids_where(keep, (n - 1) as nat).take(k));
    } else {
        assert(ids_where(keep, n).take(ids_where(keep, n).len() as int) =~= ids_where(keep, n));
    }
}

/// A stretch in which nothing is selected adds nothing.
pub proof fn lemma_ids_where_gap(keep: spec_fn(int) -> bool, a: nat, b: nat)
    requires
        a <= b,
        forall|i: int| a <= i < b ==> !#[trigger] keep(i),
    ensures
        ids_where(keep, a) == ids_where(keep, b),
    decreases b,
{
    if a < b {
        lemma_ids_where_gap(keep, a, (b - 1) as nat);
        assert(!keep(b - 1));
    }
}

/// The next id to look at after the first `j` of `all`, or `n` if none is left.
pub open spec fn next_bound(all: Seq<u32>, n: nat, j: int) -> nat {
    if 0 <= j < all.len() {
        all[j] as nat
    } else {
        n
    }
}

/// Looking only at the ids that `sup` selects misses none of `keep`, which is
/// narrower.
pub proof fn lemma_narrow(
    sup: spec_fn(int) -> bool,
    keep: spec_fn(int) -> bool,
    n: nat,
    j: int,
)
    requires
        n <= 0x1_0000_0000,
        forall|i: int| 0 <= i < n && #[trigger] keep(i) ==> sup(i),
        0 <= j <= ids_where(sup, n).len(),
    ensures
        ids_where(keep, next_bound(ids_where(sup, n), n, 0)) == Seq::<u32>::empty(),
        j < ids_where(sup, n).len() ==> {
            let x = ids_where(sup, n)[j] as int;
            &&& x < n
            &&& sup(x)
            &&& next_bound(ids_where(sup, n), n, j + 1) <= n
            &&& ids_where(keep, (x + 1) as nat) == (if keep(x) {
                ids_where(keep, next_bound(ids_where(sup, n), n, j)).push(x as u32)
            } else {
                ids_where(keep, next_bound(ids_where(sup, n), n, j))
            })
            &&& ids_where(keep, next_bound(ids_where(sup, n), n, j + 1)) == ids_where(
                keep,
                (x + 1) as nat,
            )
        },
{
    let all = ids_where(sup, n);
    lemma_ids_where(sup, n);
    let b0 = next_bound(all, n, 0);
    assert forall|i: int| 0 <= i < b0 implies !#[trigger] keep(i) by {
        if keep(i) {
            assert(all.contains(i as u32));
            let q = choose|q: int| 0 <= q < all.len() && all[q] == i as u32;
            if q > 0 {
                assert(all[0] < all[q]);
            }
        }
    }
    lemma_ids_where_gap(keep, 0, b0);
    assert(ids_where(keep, 0) =~= Seq::<u32>::empty());
    if j < all.len() {
        let x = all[j] as int;
        let next = next_bound(all, n, j + 1);
        if j + 1 < all.len() {
            assert(all[j] < all[j + 1]);
        }
        assert forall|i: int| x + 1 <= i < next implies !#[trigger] keep(i) by {
            if keep(i) {
                assert(all.contains(i as u32));
                let q = choose|q: int| 0 <= q < all.len() && all[q] == i as u32;
                if q < j {
                    assert(all[q] < all[j]);
                }
                if q > j + 1 {
                    assert(all[j + 1] < all[q]);
                }
            }
        }
        lemma_ids_where_gap(keep, (x + 1) as nat, next);
    }
}

/// What one `push` does to membership.
pub proof fn lemma_push_contains<T>(s: Seq<T>, y: T, x: T)
    ensures
        s.push(y).contains(x) <==> (s.contains(x) || x == y),
{
    let t = s.push(y);
    if s.contains(x) {
        let k = choose|k: int| 0 <= k < s.len() && s[k] == x;
        assert(t[k] == x);
    }
    if x == y {
        assert(t[s.len() as int] == x);
    }
    if t.contains(x) {
        let k = choose|k: int| 0 <= k < t.len() && t[k] == x;
        if k < s.len() {
            assert(s[k] == x);
        }
    }
}

/// An ascending sequence of ids below `n` has at most `n` elements.
pub proof fn lemma_ascending_len(s: Seq<u32>, n: int)
    requires
        ascending(s),
        forall|j: int| 0 <= j < s.len() ==> (#[trigger] s[j]) < n,
        0 <= n,
    ensures
        s.len() <= n,
    decreases s.len(),
{
    if s.len() > 0 {
        let t = s.drop_last();
        assert forall|j: int| 0 <= j < t.len() implies (#[trigger] t[j]) < s.last() by {
            assert(t[j] == s[j]);
        }
        lemma_ascending_len(t, s.last() as int);
        assert(s[s.len() - 1] < n);
    }
}

/// The union of two ascending lists, ascending and without repeats.
pub fn merge(a: &Vec<u32>, b: &Vec<u32>) -> (out: Vec<u32>)
    requires
        ascending(a@),
        ascending(b@),
    ensures
        ascending(out@),
        forall|x: u32| #[trigger] out@.contains(x) <==> (a@.contains(x) || b@.contains(x)),
{
    let mut out: Vec<u32> = Vec::new();
    let mut i: usize = 0;
    let mut j: usize = 0;
    while i < a.len() || j < b.len()
        invariant
            ascending(a@),
            ascending(b@),
            0 <= i <= a.len(),
            0 <= j <= b.len(),
            ascending(out@),
            forall|x: u32| #[trigger]
                out@.contains(x) <==> (a@.take(i as int).contains(x) || b@.take(j as int).contains(
                    x,
                )),
            forall|k: int| 0 <= k < out.len() && i < a.len() ==> #[trigger] out@[k] < a@[i as int],
            forall|k: int| 0 <= k < out.len() && j < b.len() ==> #[trigger] out@[k] < b@[j as int],
        decreases a.len() - i + b.len() - j,
    {
        let ghost before = out@;
        let ghost i0 = i as int;
        let ghost j0 = j as int;
        if j == b.len() || (i < a.len() && a[i] < b[j]) {
            out.push(a[i]);
            proof {
                assert(a@.take(i0 + 1) =~= a@.take(i0).push(a@[i0]));
            }
            i = i + 1;
        } else if i == a.len() || b[j] < a[i] {
            out.push(b[j]);
            proof {
                assert(b@.take(j0 + 1) =~= b@.take(j0).push(b@[j0]));
            }
            j = j + 1;
        } else {
            out.push(a[i]);
            proof {
                assert(a@.take(i0 + 1) =~= a@.take(i0).push(a@[i0]));
                assert(b@.take(j0 + 1) =~= b@.take(j0).push(b@[j0]));
            }
            i = i + 1;
            j = j + 1;
        }
        proof {
            let y = out@.last();
            assert(out@ =~= before.push(y));
            assert forall|x: u32| #[trigger] out@.contains(x) <==> (a@.take(i as int).contains(x)
                || b@.take(j as int).contains(x)) by {
                lemma_push_contains(before, y, x);
                assert(before.contains(x) <==> (a@.take(i0).contains(x) || b@.take(j0).contains(
                    x,
                )));
                if i0 < i {
                    lemma_push_contains(a@.take(i0), a@[i0], x);
                }
                if j0 < j {
                    lemma_push_contains(b@.take(j0), b@[j0], x);
                }
            }
        }
    }
    proof {
        assert(a@.take(i as int) =~= a@);
        assert(b@.take(j as int) =~= b@);
    }
    out
}

/// The elements of `v`, ascending and without repeats.
pub fn sort_unique(v: Vec<u32>) -> (out: Vec<u32>)
    ensures
        ascending(out@),
        forall|x: u32| #[trigger] out@.contains(x) <==> v@.contains(x),
    decreases v.len(),
{
    if v.len() <= 1 {
        return v;
    }
    let mut low = v;
    let mid: usize = low.len() / 2;
    let high = low.split_off(mid);
    let ghost lo = low@;
    let ghost hi = high@;
    proof {
        assert(v@ =~= lo + hi);
        assert forall|x: u32| #[trigger] v@.contains(x) <==> (lo.contains(x) || hi.contains(x)) by {
            if lo.contains(x) {
                let k = choose|k: int| 0 <= k < lo.len() && lo[k] == x;
                assert(v@[k] == x);
            }
            if hi.contains(x) {
                let k = choose|k: int| 0 <= k < hi.len() && hi[k] == x;
                assert(v@[k + lo.len()] == x);
            }
            if v@.contains(x) {
                let k = choose|k: int| 0 <= k < v@.len() && v@[k] == x;
                if k < lo.len() {
                    assert(lo[k] == x);
                } else {
                    assert(hi[k - lo.len()] == x);
                }
            }
        }
    }
    let a = sort_unique(low);
    let b = sort_unique(high);
    merge(&a, &b)
}

} // verus!
