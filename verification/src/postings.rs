//! Delta and varint encoded posting lists, and their intersection.

use vstd::prelude::*;
use crate::ids::{ascending, lemma_push_contains};

verus! {

/// One checkpoint every `SKIP_INTERVAL` postings.
pub const SKIP_INTERVAL: u32 = 64;

/// How far a stream may fall behind before the checkpoints are consulted.
pub const GALLOP_AFTER: u32 = 8;

/// The little-endian base-128 encoding of `v`: every byte but the last has its
/// high bit set.
pub open spec fn varint(v: nat) -> Seq<u8>
    decreases v,
{
    if v < 128 {
        seq![v as u8]
    } else {
        seq![(v % 128 + 128) as u8] + varint(v / 128)
    }
}

/// What is stored for the id at position `k`: the gap to the one before it.
pub open spec fn gap(ids: Seq<u32>, k: int) -> nat {
    if k == 0 {
        ids[0] as nat
    } else {
        (ids[k] - ids[k - 1]) as nat
    }
}

/// The stored form of an ascending list.
pub open spec fn encoded(ids: Seq<u32>) -> Seq<u8>
    decreases ids.len(),
{
    if ids.len() == 0 {
        seq![]
    } else {
        encoded(ids.drop_last()) + varint(gap(ids, ids.len() - 1))
    }
}

/// Where the encoding of the first `k` ids ends.
pub open spec fn offset(ids: Seq<u32>, k: int) -> nat {
    encoded(ids.take(k)).len()
}

proof fn lemma_varint_len(v: nat)
    ensures
        1 <= varint(v).len() <= v + 1,
        v > 0 ==> varint(v).len() <= v,
        v > 1 ==> varint(v).len() < v,
    decreases v,
{
    if v >= 128 {
        lemma_varint_len(v / 128);
    }
}

/// The encoding never has more bytes than the largest id plus one, and it has
/// that many only where no id is left out.
proof fn lemma_encoded_len(ids: Seq<u32>)
    requires
        ascending(ids),
        ids.len() > 0,
    ensures
        encoded(ids).len() <= ids.last() + 1,
        encoded(ids).len() == ids.last() + 1 ==> ids.len() == ids.last() + 1,
    decreases ids.len(),
{
    let last = ids.len() - 1;
    lemma_varint_len(gap(ids, last));
    if last == 0 {
        assert(encoded(ids.drop_last()) =~= seq![]);
    } else {
        assert(ids[last - 1] < ids[last]);
        lemma_encoded_len(ids.drop_last());
    }
}

/// The encoding of as many ids as can be counted has a length that can.
proof fn lemma_encoded_fits(ids: Seq<u32>)
    requires
        ascending(ids),
        ids.len() <= u32::MAX,
    ensures
        encoded(ids).len() <= u32::MAX,
{
    if ids.len() > 0 {
        lemma_encoded_len(ids);
    }
}

proof fn lemma_gap_take(ids: Seq<u32>, n: int, k: int)
    requires
        0 <= k < n <= ids.len(),
    ensures
        gap(ids.take(n), k) == gap(ids, k),
{
}

/// One more id adds its gap's varint.
proof fn lemma_encoded_step(ids: Seq<u32>, k: int)
    requires
        0 <= k < ids.len(),
    ensures
        encoded(ids.take(k + 1)) == encoded(ids.take(k)) + varint(gap(ids, k)),
        offset(ids, k + 1) > offset(ids, k),
{
    let t = ids.take(k + 1);
    assert(t.drop_last() =~= ids.take(k));
    lemma_gap_take(ids, k + 1, k);
    lemma_varint_len(gap(ids, k));
}

proof fn lemma_offset_monotone(ids: Seq<u32>, a: int, b: int)
    requires
        0 <= a <= b <= ids.len(),
    ensures
        offset(ids, a) <= offset(ids, b),
    decreases b - a,
{
    if a < b {
        lemma_encoded_step(ids, b - 1);
        lemma_offset_monotone(ids, a, b - 1);
    }
}

/// The encoding of a prefix is a prefix of the encoding.
proof fn lemma_encoded_prefix(ids: Seq<u32>, k: int)
    requires
        0 <= k <= ids.len(),
    ensures
        offset(ids, k) <= encoded(ids).len(),
        encoded(ids).take(offset(ids, k) as int) == encoded(ids.take(k)),
    decreases ids.len() - k,
{
    if k == ids.len() {
        assert(ids.take(k) =~= ids);
        assert(encoded(ids).take(offset(ids, k) as int) =~= encoded(ids));
    } else {
        lemma_encoded_prefix(ids, k + 1);
        lemma_encoded_step(ids, k);
        let whole = encoded(ids);
        assert(whole.take(offset(ids, k) as int) =~= whole.take(offset(ids, k + 1) as int).take(
            offset(ids, k) as int,
        ));
        assert(encoded(ids.take(k + 1)).take(offset(ids, k) as int) =~= encoded(ids.take(k)));
    }
}

/// The bytes after the first `k` ids begin with the next gap.
proof fn lemma_next_gap(ids: Seq<u32>, k: int)
    requires
        0 <= k < ids.len(),
    ensures
        offset(ids, k) + varint(gap(ids, k)).len() == offset(ids, k + 1),
        offset(ids, k + 1) <= encoded(ids).len(),
        encoded(ids).subrange(offset(ids, k) as int, offset(ids, k + 1) as int) == varint(
            gap(ids, k),
        ),
{
    lemma_encoded_step(ids, k);
    lemma_encoded_prefix(ids, k + 1);
    let whole = encoded(ids);
    let (a, b) = (offset(ids, k) as int, offset(ids, k + 1) as int);
    assert(whole.subrange(a, b) =~= whole.take(b).skip(a));
    assert(encoded(ids.take(k + 1)).skip(a) =~= varint(gap(ids, k)));
}

/// A posting list: ascending entry ids, each stored as the gap to the one
/// before it.
pub struct Postings {
    pub bytes: Vec<u8>,
    pub last: u32,
    pub len: u32,
    /// An id, and the byte offset just past its gap. Lets intersection jump to
    /// the neighbourhood of a target.
    pub skips: Vec<(u32, u32)>,
    pub ids: Ghost<Seq<u32>>,
}

impl View for Postings {
    type V = Seq<u32>;

    open spec fn view(&self) -> Seq<u32> {
        self.ids@
    }
}

/// The list with `id` appended, if it is above the last.
pub open spec fn extended(ids: Seq<u32>, id: u32) -> Seq<u32> {
    if ids.len() > 0 && id <= ids.last() {
        ids
    } else {
        ids.push(id)
    }
}

impl Postings {
    /// The checkpoint that stands behind the ids up to `64 * (k + 1)`.
    pub open spec fn checkpoint_at(self, k: int) -> (u32, u32) {
        (
            self@[SKIP_INTERVAL * (k + 1) - 1],
            offset(self@, SKIP_INTERVAL * (k + 1)) as u32,
        )
    }

    pub open spec fn wf(self) -> bool {
        &&& ascending(self@)
        &&& self.bytes@ == encoded(self@)
        &&& self.len == self@.len()
        &&& self.len > 0 ==> self.last == self@.last()
        &&& self.skips@.len() == self.len as int / SKIP_INTERVAL as int
        &&& forall|k: int|
            0 <= k < self.skips@.len() ==> #[trigger] self.skips@[k] == self.checkpoint_at(k)
    }

    pub fn new() -> (p: Postings)
        ensures
            p.wf(),
            p@ == Seq::<u32>::empty(),
    {
        Postings {
            bytes: Vec::new(),
            last: 0,
            len: 0,
            skips: Vec::new(),
            ids: Ghost(Seq::empty()),
        }
    }

    /// How many ids the list holds.
    pub fn len(&self) -> (n: usize)
        requires
            self.wf(),
        ensures
            n == self@.len(),
    {
        self.len as usize
    }

    /// Appends `id`. Ids ascend: one that is not above the last is ignored.
    /// One more must be countable.
    pub fn push(&mut self, id: u32)
        requires
            old(self).wf(),
            old(self)@.len() < u32::MAX || id <= old(self)@.last(),
        ensures
            final(self).wf(),
            final(self)@ == extended(old(self)@, id),
    {
        if self.len > 0 && id <= self.last {
            return ;
        }
        let ghost ids0 = self@;
        let ghost ids1 = ids0.push(id);
        let delta: u32 = if self.len == 0 {
            id
        } else {
            id - self.last
        };
        proof {
            assert(ids1.drop_last() =~= ids0);
            assert(gap(ids1, ids1.len() - 1) == delta);
            assert(ascending(ids1));
            lemma_encoded_fits(ids1);
        }
        let mut v: u32 = delta;
        while v >= 128
            invariant
                self.bytes@ + varint(v as nat) == encoded(ids1),
                self.last == old(self).last,
                self.len == old(self).len,
                self.skips == old(self).skips,
                self.ids == old(self).ids,
            decreases v,
        {
            let ghost before = self.bytes@;
            let b: u8 = (v % 128) as u8 + 128;
            self.bytes.push(b);
            proof {
                assert(before + varint(v as nat) =~= self.bytes@ + varint((v / 128) as nat));
            }
            v = v / 128;
        }
        let ghost before = self.bytes@;
        self.bytes.push(v as u8);
        proof {
            assert(self.bytes@ =~= before + varint(v as nat));
        }
        self.last = id;
        self.len = self.len + 1;
        self.ids = Ghost(ids1);
        let ghost skips0 = self.skips@;
        if self.len % SKIP_INTERVAL == 0 {
            self.skips.push((id, self.bytes.len() as u32));
        }
        proof {
            assert(ids1.take(ids1.len() as int) =~= ids1);
            assert forall|k: int| 0 <= k < self.skips@.len() implies #[trigger] self.skips@[k]
                == self.checkpoint_at(k) by {
                if k < skips0.len() {
                    assert(skips0[k] == old(self).checkpoint_at(k));
                    let m = SKIP_INTERVAL * (k + 1);
                    assert(ids1.take(m) =~= ids0.take(m));
                }
            }
        }
    }

    /// The ids, from the first.
    pub fn iter(&self) -> (it: PostingsIter<'_>)
        requires
            self.wf(),
        ensures
            it.wf(),
            it.list() == self@,
            it.at() == 0,
    {
        let it = PostingsIter {
            bytes: self.bytes.as_slice(),
            pos: 0,
            acc: 0,
            first: true,
            pending: None,
            ids: self.ids,
            done: Ghost(0),
        };
        proof {
            assert(self@.take(0) =~= Seq::<u32>::empty());
        }
        it
    }

    /// Last checkpoint at or before `target`, or `None` if it precedes the
    /// first.
    pub fn checkpoint_for(&self, target: u32) -> (r: Option<(u32, u32)>)
        requires
            self.wf(),
        ensures
            match r {
                None => forall|k: int| 0 <= k < self.skips@.len() ==> self.skips@[k].0 > target,
                Some(c) => exists|k: int|
                    0 <= k < self.skips@.len() && c == #[trigger] self.skips@[k] && c.0 <= target
                        && forall|j: int| k < j < self.skips@.len() ==> self.skips@[j].0 > target,
            },
    {
        let mut lo: usize = 0;
        let mut hi: usize = self.skips.len();
        while lo < hi
            invariant
                self.wf(),
                lo <= hi <= self.skips@.len(),
                forall|k: int| 0 <= k < lo ==> self.skips@[k].0 <= target,
                forall|k: int| hi <= k < self.skips@.len() ==> self.skips@[k].0 > target,
            decreases hi - lo,
        {
            let mid: usize = lo + (hi - lo) / 2;
            proof {
                assert(self.skips@[mid as int] == self.checkpoint_at(mid as int));
            }
            if self.skips[mid].0 <= target {
                proof {
                    assert forall|k: int| 0 <= k <= mid implies self.skips@[k].0 <= target by {
                        assert(self.skips@[k] == self.checkpoint_at(k));
                    }
                }
                lo = mid + 1;
            } else {
                proof {
                    assert forall|k: int| mid <= k < self.skips@.len() implies self.skips@[k].0
                        > target by {
                        assert(self.skips@[k] == self.checkpoint_at(k));
                    }
                }
                hi = mid;
            }
        }
        if lo == 0 {
            None
        } else {
            assert(self.skips@[lo - 1].0 <= target);
            Some(self.skips[lo - 1])
        }
    }

    /// Resumes decoding from a checkpoint, yielding that checkpoint's id first.
    pub fn iter_at(&self, id: u32, off: u32) -> (it: PostingsIter<'_>)
        requires
            self.wf(),
            exists|k: int| 0 <= k < self.skips@.len() && #[trigger] self.skips@[k] == (id, off),
        ensures
            it.wf(),
            it.list() == self@,
            forall|k: int|
                0 <= k < self.skips@.len() && #[trigger] self.skips@[k] == (id, off) ==> it.at()
                    == SKIP_INTERVAL * (k + 1) - 1,
    {
        let ghost k = choose|k: int|
            0 <= k < self.skips@.len() && #[trigger] self.skips@[k] == (id, off);
        let ghost n = SKIP_INTERVAL * (k + 1);
        proof {
            assert(self.skips@[k] == self.checkpoint_at(k));
            assert(n <= self@.len());
            lemma_encoded_prefix(self@, n);
            lemma_encoded_len(self@);
            assert forall|j: int| 0 <= j < self.skips@.len() && #[trigger] self.skips@[j] == (id, off)
                implies j == k by {
                assert(self.skips@[j] == self.checkpoint_at(j));
                if j < k {
                    assert(self@[SKIP_INTERVAL * (j + 1) - 1] < self@[n - 1]);
                } else if k < j {
                    assert(self@[n - 1] < self@[SKIP_INTERVAL * (j + 1) - 1]);
                }
            }
        }
        PostingsIter {
            bytes: self.bytes.as_slice(),
            pos: off as usize,
            acc: id,
            first: false,
            pending: Some(id),
            ids: self.ids,
            done: Ghost(n),
        }
    }

    /// The ids as a plain list.
    pub fn to_vec(&self) -> (v: Vec<u32>)
        requires
            self.wf(),
        ensures
            v@ == self@,
    {
        let mut v: Vec<u32> = Vec::with_capacity(self.len as usize);
        let mut it = self.iter();
        let mut left: u32 = self.len;
        while left > 0
            invariant
                self.wf(),
                it.wf(),
                it.list() == self@,
                left == self@.len() - it.at(),
                v@ == self@.take(it.at()),
            decreases left,
        {
            if let Some(id) = it.next() {
                v.push(id);
                assert(v@ =~= self@.take(it.at()));
            }
            left = left - 1;
        }
        assert(self@.take(it.at()) =~= self@);
        v
    }
}

impl Default for Postings {
    fn default() -> (p: Postings)
        ensures
            p.wf(),
            p@ == Seq::<u32>::empty(),
    {
        Postings::new()
    }
}

/// A position in a posting list.
pub struct PostingsIter<'a> {
    pub bytes: &'a [u8],
    pub pos: usize,
    pub acc: u32,
    pub first: bool,
    pub pending: Option<u32>,
    pub ids: Ghost<Seq<u32>>,
    pub done: Ghost<int>,
}

impl<'a> PostingsIter<'a> {
    /// The whole list.
    pub open spec fn list(self) -> Seq<u32> {
        self.ids@
    }

    /// The position in the list of the id that comes next.
    pub open spec fn at(self) -> int {
        if self.pending is Some {
            self.done@ - 1
        } else {
            self.done@
        }
    }

    pub open spec fn wf(self) -> bool {
        &&& ascending(self.list())
        &&& self.bytes@ == encoded(self.list())
        &&& 0 <= self.done@ <= self.list().len()
        &&& self.pos == offset(self.list(), self.done@)
        &&& self.first <==> self.done@ == 0
        &&& self.done@ > 0 ==> self.acc == self.list()[self.done@ - 1]
        &&& self.pending matches Some(p) ==> self.done@ > 0 && p == self.acc
    }

    /// How many bytes have been decoded.
    pub fn byte_pos(&self) -> (n: usize)
        requires
            self.wf(),
        ensures
            n == offset(self.list(), self.done@),
    {
        self.pos
    }

    /// The next id, if there is one.
    pub fn next(&mut self) -> (r: Option<u32>)
        requires
            old(self).wf(),
        ensures
            final(self).wf(),
            final(self).list() == old(self).list(),
            final(self).pending is None,
            match r {
                Some(id) => old(self).at() < old(self).list().len() && id == old(self).list()[old(
                    self,
                ).at()] && final(self).at() == old(self).at() + 1,
                None => old(self).at() == old(self).list().len() && final(self).at() == old(
                    self,
                ).at(),
            },
    {
        if let Some(p) = self.pending {
            self.pending = None;
            return Some(p);
        }
        let ghost ids = self.list();
        let ghost k = self.done@;
        if self.pos >= self.bytes.len() {
            proof {
                if k < ids.len() {
                    lemma_next_gap(ids, k);
                    lemma_varint_len(gap(ids, k));
                }
            }
            return None;
        }
        proof {
            if k == ids.len() {
                assert(ids.take(k) =~= ids);
            }
            lemma_next_gap(ids, k);
        }
        let ghost whole = gap(ids, k);
        let ghost end = offset(ids, k + 1) as int;
        let mut delta: u64 = 0;
        let mut weight: u64 = 1;
        let ghost mut v: nat = whole;
        let mut pos: usize = self.pos;
        proof {
            assert(whole <= u32::MAX);
        }
        while self.bytes[pos] >= 128
            invariant
                pos < self.bytes.len(),
                pos < end <= self.bytes.len(),
                whole <= u32::MAX,
                weight > 0,
                delta + weight * v == whole,
                self.bytes@.subrange(pos as int, end) == varint(v),
            decreases end - pos,
        {
            let b = self.bytes[pos];
            let ghost tail = self.bytes@.subrange(pos as int, end);
            proof {
                assert(tail[0] == b);
                assert(v >= 128);
                assert(b == v % 128 + 128);
                assert(tail.skip(1) =~= varint(v / 128));
                assert(self.bytes@.subrange(pos + 1, end) =~= tail.skip(1));
                lemma_varint_len(v / 128);
                let lo = v % 128;
                let hi = v / 128;
                assert(weight * v == weight * lo + (weight * 128) * hi) by (nonlinear_arith)
                    requires
                        v == 128 * hi + lo,
                ;
                assert(weight * 128 <= weight * v) by (nonlinear_arith)
                    requires
                        v >= 128,
                        weight > 0,
                ;
                assert(0 <= (weight * 128) * hi) by (nonlinear_arith)
                    requires
                        weight > 0,
                        hi >= 0,
                ;
            }
            let part: u64 = (b - 128) as u64;
            assert(weight * part <= u32::MAX);
            delta = delta + weight * part;
            weight = weight * 128;
            pos = pos + 1;
            proof {
                v = v / 128;
            }
        }
        let b = self.bytes[pos];
        proof {
            let tail = self.bytes@.subrange(pos as int, end);
            assert(tail[0] == b);
            assert(v < 128);
            assert(tail.len() == 1);
            assert(b == v);
        }
        let step: u32 = (delta + weight * (b as u64)) as u32;
        pos = pos + 1;
        if self.first {
            self.first = false;
            self.acc = step;
        } else {
            proof {
                assert(ids[k - 1] < ids[k]);
            }
            self.acc = self.acc + step;
        }
        self.pos = pos;
        self.done = Ghost(k + 1);
        Some(self.acc)
    }
}

/// Intersects a plain ascending list with a posting list.
///
/// Streams the compressed side, but when it falls clearly behind it jumps to
/// the nearest checkpoint instead of decoding every gap between.
pub fn intersect_stream(acc: &Vec<u32>, p: &Postings) -> (out: Vec<u32>)
    requires
        ascending(acc@),
        p.wf(),
    ensures
        ascending(out@),
        forall|x: u32| #[trigger] out@.contains(x) <==> (acc@.contains(x) && p@.contains(x)),
{
    let mut out: Vec<u32> = Vec::new();
    if acc.len() == 0 {
        return out;
    }
    let acc_max: u32 = acc[acc.len() - 1];
    let mut it = p.iter();
    let mut cur: Option<u32> = it.next();
    let mut i: usize = 0;
    let mut behind: u32 = 0;
    // The position in the list of `cur`.
    let ghost mut c: int = 0;
    while i < acc.len()
        invariant
            ascending(acc@),
            p.wf(),
            it.wf(),
            it.list() == p@,
            it.pending is None,
            acc.len() > 0,
            acc_max == acc@[acc.len() - 1],
            i <= acc.len(),
            behind < GALLOP_AFTER,
            0 <= c <= p@.len(),
            match cur {
                Some(x) => c < p@.len() && x == p@[c] && it.at() == c + 1,
                None => c == p@.len(),
            },
            ascending(out@),
            forall|k: int| 0 <= k < c && i < acc.len() ==> #[trigger] p@[k] < acc@[i as int],
            forall|x: u32| #[trigger]
                out@.contains(x) <==> (acc@.take(i as int).contains(x) && p@.contains(x)),
            forall|k: int| 0 <= k < out.len() && i < acc.len() ==> #[trigger] out@[k]
                < acc@[i as int],
        ensures
            forall|m: int| i <= m < acc.len() ==> !p@.contains(#[trigger] acc@[m]),
        decreases acc.len() - i + (p@.len() - c),
    {
        let ghost i0 = i as int;
        let ghost out0 = out@;
        let x: u32 = match cur {
            None => {
                proof {
                    assert forall|m: int| i <= m < acc.len() implies !p@.contains(
                        #[trigger] acc@[m],
                    ) by {
                        assert(acc@[i0] <= acc@[m]);
                    }
                }
                break ;
            },
            Some(x) => x,
        };
        if x > acc_max {
            proof {
                assert forall|m: int| i <= m < acc.len() implies !p@.contains(#[trigger] acc@[m]) by {
                    assert(acc@[i0] <= acc@[m] <= acc_max);
                    if p@.contains(acc@[m]) {
                        let q = choose|q: int| 0 <= q < p@.len() && p@[q] == acc@[m];
                        if q >= c {
                            assert(p@[c] <= p@[q]);
                        }
                    }
                }
            }
            break ;
        }
        let a = acc[i];
        proof {
            assert(acc@.take(i0 + 1) =~= acc@.take(i0).push(a));
        }
        if x == a {
            out.push(x);
            i = i + 1;
            behind = 0;
            cur = it.next();
            proof {
                assert(p@[c] == a);
                c = c + 1;
                assert forall|y: u32| #[trigger] out@.contains(y) <==> (acc@.take(
                    i0 + 1,
                ).contains(y) && p@.contains(y)) by {
                    lemma_push_contains(out0, a, y);
                    lemma_push_contains(acc@.take(i0), a, y);
                    assert(out0.contains(y) <==> (acc@.take(i0).contains(y) && p@.contains(y)));
                }
            }
        } else if x > a {
            i = i + 1;
            behind = 0;
            proof {
                assert(!p@.contains(a)) by {
                    if p@.contains(a) {
                        let q = choose|q: int| 0 <= q < p@.len() && p@[q] == a;
                        if q > c {
                            assert(p@[c] < p@[q]);
                        }
                    }
                }
                assert forall|y: u32| #[trigger] out@.contains(y) <==> (acc@.take(
                    i0 + 1,
                ).contains(y) && p@.contains(y)) by {
                    lemma_push_contains(acc@.take(i0), a, y);
                    assert(out0.contains(y) <==> (acc@.take(i0).contains(y) && p@.contains(y)));
                }
            }
        } else {
            behind = behind + 1;
            let ghost mut next_c = c + 1;
            if behind >= GALLOP_AFTER {
                behind = 0;
                if let Some((cp_id, cp_off)) = p.checkpoint_for(a) {
                    if cp_off as usize > it.byte_pos() {
                        let ghost k = choose|k: int|
                            0 <= k < p.skips@.len() && (cp_id, cp_off) == #[trigger] p.skips@[k]
                                && cp_id <= a && forall|j: int|
                                k < j < p.skips@.len() ==> p.skips@[j].0 > a;
                        proof {
                            assert(p.skips@[k] == p.checkpoint_at(k));
                            let q = SKIP_INTERVAL * (k + 1) - 1;
                            next_c = q;
                            lemma_encoded_prefix(p@, q + 1);
                            lemma_encoded_len(p@);
                            assert(cp_off == offset(p@, q + 1));
                            if q + 1 <= c + 1 {
                                lemma_offset_monotone(p@, q + 1, c + 1);
                            }
                        }
                        it = p.iter_at(cp_id, cp_off);
                    }
                }
            }
            cur = it.next();
            proof {
                assert forall|m: int| 0 <= m < next_c implies #[trigger] p@[m] < a by {
                    if m < c {
                    } else if m == c {
                    } else {
                        assert(p@[m] < p@[next_c]);
                    }
                }
                c = next_c;
            }
        }
    }
    proof {
        assert forall|x: u32| #[trigger] out@.contains(x) <==> (acc@.contains(x) && p@.contains(
            x,
        )) by {
            let t = acc@.take(i as int);
            if t.contains(x) {
                let q = choose|q: int| 0 <= q < t.len() && t[q] == x;
                assert(acc@[q] == x);
            }
            if acc@.contains(x) && p@.contains(x) {
                let q = choose|q: int| 0 <= q < acc@.len() && acc@[q] == x;
                if q < i {
                    assert(t[q] == x);
                } else {
                    assert(!p@.contains(acc@[q]));
                }
            }
        }
    }
    out
}

// What pushing promises.

/// The list after each of `xs` has been pushed in turn.
pub open spec fn pushed(xs: Seq<u32>) -> Seq<u32>
    decreases xs.len(),
{
    if xs.len() == 0 {
        seq![]
    } else {
        extended(pushed(xs.drop_last()), xs.last())
    }
}

/// Element `i` is greater than all before it.
pub open spec fn is_record(xs: Seq<u32>, i: int) -> bool {
    forall|j: int| 0 <= j < i ==> (#[trigger] xs[j]) < xs[i]
}

/// The elements that are greater than all before them, in order.
pub open spec fn records(xs: Seq<u32>) -> Seq<u32>
    decreases xs.len(),
{
    if xs.len() == 0 {
        seq![]
    } else if is_record(xs, xs.len() - 1) {
        records(xs.drop_last()).push(xs.last())
    } else {
        records(xs.drop_last())
    }
}

/// Pushing any ids one after the other leaves those that are greater than all
/// before them: the list ascends, whatever the gaps, and repeats and ids out of
/// order leave no trace.
pub proof fn pushing_keeps_the_records(xs: Seq<u32>)
    ensures
        pushed(xs) == records(xs),
        ascending(pushed(xs)),
        xs.len() > 0 ==> pushed(xs).len() > 0,
        forall|j: int| 0 <= j < xs.len() ==> (#[trigger] xs[j]) <= pushed(xs).last(),
        forall|i: int|
            0 <= i < pushed(xs).len() ==> xs.contains(#[trigger] pushed(xs)[i]),
    decreases xs.len(),
{
    if xs.len() > 0 {
        let head = xs.drop_last();
        let last = xs.len() - 1;
        pushing_keeps_the_records(head);
        let s = pushed(head);
        assert forall|j: int| 0 <= j < last implies (#[trigger] xs[j]) <= s.last() by {
            assert(head[j] == xs[j]);
        }
        if s.len() > 0 {
            assert(head.contains(s[s.len() - 1]));
            let j = choose|j: int| 0 <= j < head.len() && head[j] == s.last();
            assert(xs[j] == s.last());
        }
        assert forall|i: int| 0 <= i < pushed(xs).len() implies xs.contains(
            #[trigger] pushed(xs)[i],
        ) by {
            if i < s.len() {
                assert(head.contains(s[i]));
                let j = choose|j: int| 0 <= j < head.len() && head[j] == s[i];
                assert(xs[j] == s[i]);
            } else {
                assert(xs[last] == pushed(xs)[i]);
            }
        }
    }
}

} // verus!
