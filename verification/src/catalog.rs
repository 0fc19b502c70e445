//! Everything the daemon indexes: one part per configured folder, each with
//! its own index and its own watcher. Keeping the parts apart means an inode
//! number never has to be told apart from another filesystem's, and the index
//! itself stays single-rooted. Searches run over every part and merge.

use vstd::prelude::*;
use std::collections::HashMap;
use vstd::utf8::encode_utf8;
use crate::bytes::{copy, same, views};
use crate::digest::{digest, digest_of};
use crate::ids::ids_where;
use crate::index::{living, Index};
use crate::place::{is_within, within};
use crate::text::texts;
use crate::tree::Node;
use crate::watch::Event;

verus! {

/// A rescanned mount's last complete walk.
pub type Listing = Vec<(u32, Vec<u8>, bool)>;

/// One indexed folder.
pub struct Part {
    pub root: String,
    pub index: Index,
    /// Events applied while a reconciliation walk of this part runs, kept for
    /// replay onto the fresh index.
    pub capture: Option<Vec<Event>>,
    /// Last complete listing of each rescanned mount inside this part, so a
    /// reconciliation can graft it into the fresh index at once.
    pub listings: Vec<(String, Listing)>,
}

pub struct Catalog {
    pub parts: Vec<Part>,
    /// Folders left out of every walk, as absolute paths.
    pub exclude: Vec<String>,
}

/// The part `p` lies in: `j` is the last of those with the longest root.
pub open spec fn innermost(parts: Seq<Part>, p: Seq<char>, j: int) -> bool {
    &&& 0 <= j < parts.len()
    &&& within(p, parts[j].root@)
    &&& forall|i: int|
        0 <= i < parts.len() && within(p, (#[trigger] parts[i]).root@) ==> encode_utf8(
            parts[i].root@,
        ).len() <= encode_utf8(parts[j].root@).len() && (i > j ==> encode_utf8(
            parts[i].root@,
        ).len() < encode_utf8(parts[j].root@).len())
}

/// `p` belongs to the part `r`, or to none.
pub open spec fn belongs(parts: Seq<Part>, p: Seq<char>, r: Option<int>) -> bool {
    match r {
        Some(j) => innermost(parts, p, j),
        None => forall|i: int| 0 <= i < parts.len() ==> !within(p, (#[trigger] parts[i]).root@),
    }
}

/// `hits` behind `out`, without what is there already.
pub open spec fn merged(out: Seq<Seq<u8>>, hits: Seq<Seq<u8>>) -> Seq<Seq<u8>>
    decreases hits.len(),
{
    if hits.len() == 0 {
        out
    } else {
        let before = merged(out, hits.drop_last());
        if before.contains(hits.last()) {
            before
        } else {
            before.push(hits.last())
        }
    }
}

/// What a list of replies comes to.
pub open spec fn all_merged(replies: Seq<Result<Vec<Vec<u8>>, String>>) -> Seq<Seq<u8>>
    decreases replies.len(),
{
    if replies.len() == 0 {
        seq![]
    } else {
        let before = all_merged(replies.drop_last());
        match replies.last() {
            Ok(hits) => merged(before, views(hits@)),
            Err(_) => before,
        }
    }
}

/// The parts were asked in turn, each for as many results as are still wanted,
/// and gave these replies. An error ends the search; so does having enough.
pub open spec fn asked<F: Fn(&Index, usize) -> Result<Vec<Vec<u8>>, String>>(
    parts: Seq<Part>,
    limit: usize,
    search: F,
    replies: Seq<Result<Vec<Vec<u8>>, String>>,
) -> bool {
    &&& replies.len() <= parts.len()
    &&& forall|j: int|
        0 <= j < replies.len() ==> {
            let sofar = all_merged(#[trigger] replies.take(j)).len();
            &&& sofar < limit
            &&& call_ensures(search, (&parts[j].index, (limit - sofar) as usize), replies[j])
            &&& j < replies.len() - 1 ==> replies[j] is Ok
        }
}

/// What a search over every part returns.
pub open spec fn merged_outcome<F: Fn(&Index, usize) -> Result<Vec<Vec<u8>>, String>>(
    parts: Seq<Part>,
    limit: usize,
    search: F,
    replies: Seq<Result<Vec<Vec<u8>>, String>>,
    r: Result<Vec<Vec<u8>>, String>,
) -> bool {
    &&& asked(parts, limit, search, replies)
    &&& match r {
        Err(e) => replies.len() > 0 && replies.last() == Err::<Vec<Vec<u8>>, _>(e),
        Ok(out) => {
            &&& replies.len() > 0 ==> replies.last() is Ok
            &&& views(out@) == all_merged(replies)
            &&& replies.len() == parts.len() || out@.len() >= limit
        },
    }
}

/// How many entries are alive in the first `k` parts.
pub open spec fn living_in(parts: Seq<Part>, k: nat) -> nat
    decreases k,
{
    if k == 0 {
        0
    } else {
        let nodes = parts[k - 1].index@.nodes;
        living_in(parts, (k - 1) as nat) + ids_where(living(nodes), nodes.len()).len()
    }
}

/// How many arena slots the first `k` parts use.
pub open spec fn slots_in(parts: Seq<Part>, k: nat) -> nat
    decreases k,
{
    if k == 0 {
        0
    } else {
        slots_in(parts, (k - 1) as nat) + parts[k - 1].index@.nodes.len()
    }
}

/// The results so far, and where to find each by its digest.
pub struct Merge {
    pub out: Vec<Vec<u8>>,
    pub table: HashMap<u64, Vec<usize>>,
}

impl Merge {
    /// Result `i` is listed under its digest.
    pub open spec fn listed(self, i: int) -> bool {
        let h = digest(0, self.out@[i]@);
        self.table@.contains_key(h) && self.table@[h]@.contains(i as usize)
    }

    /// Every result is listed, and nothing else is.
    pub open spec fn wf(self) -> bool {
        &&& forall|i: int| 0 <= i < self.out@.len() ==> #[trigger] self.listed(i)
        &&& forall|h: u64, k: int|
            self.table@.contains_key(h) && 0 <= k < self.table@[h]@.len() ==> (
            #[trigger] self.table@[h]@[k]) < self.out@.len()
    }

    fn new() -> (m: Merge)
        ensures
            m.wf(),
            m.out@.len() == 0,
    {
        Merge { out: Vec::new(), table: HashMap::new() }
    }

    /// Is one of the listed results `p`?
    fn any_of(&self, list: &Vec<usize>, p: &[u8]) -> (r: bool)
        requires
            forall|k: int| 0 <= k < list@.len() ==> (#[trigger] list@[k]) < self.out@.len(),
        ensures
            r == exists|k: int|
                0 <= k < list@.len() && self.out@[(#[trigger] list@[k]) as int]@ == p@,
    {
        let mut i: usize = 0;
        while i < list.len()
            invariant
                i <= list@.len(),
                forall|k: int| 0 <= k < list@.len() ==> (#[trigger] list@[k]) < self.out@.len(),
                forall|k: int| 0 <= k < i ==> self.out@[(#[trigger] list@[k]) as int]@ != p@,
            decreases list@.len() - i,
        {
            if same(self.out[list[i]].as_slice(), p) {
                assert(self.out@[list@[i as int] as int]@ == p@);
                return true;
            }
            i = i + 1;
        }
        false
    }

    /// A result that came up is found under its digest.
    proof fn lemma_found(self, p: Seq<u8>)
        requires
            self.wf(),
            views(self.out@).contains(p),
        ensures
            ({
                let h = digest(0, p);
                self.table@.contains_key(h) && exists|k: int|
                    0 <= k < self.table@[h]@.len() && self.out@[(
                    #[trigger] self.table@[h]@[k]) as int]@ == p
            }),
    {
        let i = choose|i: int| 0 <= i < views(self.out@).len() && views(self.out@)[i] == p;
        assert(self.out.len() == self.out@.len());
        assert(self.out@[i]@ == p);
        assert(self.listed(i));
        let list = self.table@[digest(0, p)]@;
        let q = choose|q: int| 0 <= q < list.len() && list[q] == i as usize;
        assert(self.out@[list[q] as int]@ == p);
    }

    /// Has `p` come up already?
    fn has(&self, p: &[u8]) -> (r: bool)
        requires
            self.wf(),
        ensures
            r == views(self.out@).contains(p@),
    {
        let h = digest_of(0, p);
        proof {
            if views(self.out@).contains(p@) {
                self.lemma_found(p@);
            }
        }
        match self.table.get(&h) {
            Some(list) => {
                assert forall|k: int| 0 <= k < list@.len() implies (#[trigger] list@[k])
                    < self.out@.len() by {
                    assert(self.table@[h]@[k] < self.out@.len());
                }
                let r = self.any_of(list, p);
                proof {
                    if r {
                        let k = choose|k: int|
                            0 <= k < list@.len() && self.out@[(#[trigger] list@[k]) as int]@ == p@;
                        assert(views(self.out@)[list@[k] as int] == p@);
                    }
                }
                r
            },
            None => false,
        }
    }

    /// Adds `p`, which has not come up.
    fn push(&mut self, p: Vec<u8>)
        requires
            old(self).wf(),
        ensures
            final(self).wf(),
            views(final(self).out@) == views(old(self).out@).push(p@),
    {
        let h = digest_of(0, p.as_slice());
        let at: usize = self.out.len();
        let ghost before = self.table@;
        let list = self.table.entry(h).or_insert(Vec::new());
        let ghost list0 = list@;
        list.push(at);
        self.out.push(p);
        proof {
            assert(views(self.out@) =~= views(old(self).out@).push(p@));
            assert(self.table@[h]@ == list0.push(at));
            assert(list0 == (if before.contains_key(h) {
                before[h]@
            } else {
                Seq::empty()
            }));
            assert forall|i: int| 0 <= i < self.out@.len() implies #[trigger] self.listed(i) by {
                let g = digest(0, self.out@[i]@);
                if i < at {
                    assert(self.out@[i] == old(self).out@[i]);
                    assert(old(self).listed(i));
                    assert(before[g]@.contains(i as usize));
                    if g == h {
                        let q = choose|q: int| 0 <= q < list0.len() && list0[q] == i as usize;
                        assert(self.table@[h]@[q] == i as usize);
                    }
                } else {
                    assert(self.table@[h]@[list0.len() as int] == at);
                }
            }
            assert forall|g: u64, k: int|
                self.table@.contains_key(g) && 0 <= k < self.table@[g]@.len() implies (
            #[trigger] self.table@[g]@[k]) < self.out@.len() by {
                if g == h {
                    if k < list0.len() {
                        assert(before[h]@[k] < old(self).out@.len());
                    }
                } else {
                    assert(before[g]@[k] < old(self).out@.len());
                }
            }
        }
    }

    /// Adds what has not come up.
    fn take(&mut self, hits: &Vec<Vec<u8>>)
        requires
            old(self).wf(),
        ensures
            final(self).wf(),
            views(final(self).out@) == merged(views(old(self).out@), views(hits@)),
    {
        let ghost out0 = views(self.out@);
        let ghost all = views(hits@);
        let mut i: usize = 0;
        assert(all.take(0) =~= Seq::<Seq<u8>>::empty());
        while i < hits.len()
            invariant
                i <= hits@.len(),
                self.wf(),
                all == views(hits@),
                views(self.out@) == merged(out0, all.take(i as int)),
            decreases hits@.len() - i,
        {
            proof {
                assert(all.take(i + 1).drop_last() =~= all.take(i as int));
                assert(all.take(i + 1).last() == hits@[i as int]@);
            }
            if !self.has(hits[i].as_slice()) {
                self.push(copy(hits[i].as_slice()));
            }
            i = i + 1;
        }
        assert(all.take(i as int) =~= all);
    }
}

/// A catalog of these folders, in their order, with nothing captured and no mount
/// listed, that leaves these others out.
pub open spec fn made_of(
    c: Catalog,
    parts: Seq<(String, Index)>,
    exclude: Seq<Seq<char>>,
) -> bool {
    &&& c.parts@.len() == parts.len()
    &&& forall|i: int|
        0 <= i < parts.len() ==> (#[trigger] c.parts@[i]).root == parts[i].0 && c.parts@[i].index
            == parts[i].1 && c.parts@[i].capture is None && c.parts@[i].listings@.len() == 0
    &&& texts(c.exclude@) == exclude
}

impl Catalog {
    /// Every index is in order.
    pub open spec fn wf(self) -> bool {
        forall|i: int| 0 <= i < self.parts@.len() ==> (#[trigger] self.parts@[i]).index.wf()
    }

    /// The totals can be counted.
    pub open spec fn countable(self) -> bool {
        slots_in(self.parts@, self.parts@.len()) <= usize::MAX
    }

    /// One part for each folder, in their order.
    pub fn new(parts: Vec<(String, Index)>, exclude: &[String]) -> (c: Catalog)
        requires
            forall|i: int| 0 <= i < parts@.len() ==> (#[trigger] parts@[i]).1.wf(),
        ensures
            c.wf(),
            made_of(c, parts@, texts(exclude@)),
    {
        let ghost given = parts@;
        let mut list: Vec<(String, Index)> = parts;
        let mut back: Vec<Part> = Vec::new();
        let mut n: usize = list.len();
        // The parts come off the end; they are turned around afterwards.
        while n > 0
            invariant
                n == list@.len(),
                n <= given.len(),
                list@ == given.take(n as int),
                back@.len() == given.len() - n,
                forall|i: int| 0 <= i < given.len() ==> (#[trigger] given[i]).1.wf(),
                forall|k: int|
                    0 <= k < back@.len() ==> (#[trigger] back@[k]).root == given[given.len() - 1
                        - k].0 && back@[k].index == given[given.len() - 1 - k].1
                        && back@[k].capture is None && back@[k].listings@.len() == 0,
            decreases n,
        {
            let ghost last = given[n - 1];
            match list.pop() {
                Some((root, index)) => {
                    assert(root == last.0 && index == last.1);
                    back.push(Part { root, index, capture: None, listings: Vec::new() });
                },
                None => {},
            }
            n = n - 1;
            assert(list@ =~= given.take(n as int));
        }
        let mut out: Vec<Part> = Vec::new();
        let ghost turned = back@;
        let mut m: usize = back.len();
        while m > 0
            invariant
                m == back@.len(),
                turned.len() == given.len(),
                m <= turned.len(),
                back@ == turned.take(m as int),
                out@.len() == turned.len() - m,
                forall|k: int|
                    0 <= k < turned.len() ==> (#[trigger] turned[k]).root == given[given.len() - 1
                        - k].0 && turned[k].index == given[given.len() - 1 - k].1
                        && turned[k].capture is None && turned[k].listings@.len() == 0,
                forall|k: int|
                    0 <= k < out@.len() ==> (#[trigger] out@[k]) == turned[turned.len() - 1 - k],
            decreases m,
        {
            let ghost last = turned[m - 1];
            match back.pop() {
                Some(p) => {
                    assert(p == last);
                    out.push(p);
                },
                None => {},
            }
            m = m - 1;
            assert(back@ =~= turned.take(m as int));
        }
        let mut ex: Vec<String> = Vec::new();
        let mut i: usize = 0;
        while i < exclude.len()
            invariant
                i <= exclude@.len(),
                ex@.len() == i,
                forall|k: int| 0 <= k < i ==> (#[trigger] ex@[k])@ == exclude@[k]@,
            decreases exclude@.len() - i,
        {
            ex.push(exclude[i].clone());
            i = i + 1;
        }
        assert(texts(ex@) =~= texts(exclude@));
        let c = Catalog { parts: out, exclude: ex };
        assert forall|i: int| 0 <= i < given.len() implies (#[trigger] c.parts@[i]).root
            == given[i].0 && c.parts@[i].index == given[i].1 && c.parts@[i].capture is None
            && c.parts@[i].listings@.len() == 0 by {
            assert(c.parts@[i] == turned[turned.len() - 1 - i]);
        }
        assert forall|i: int| 0 <= i < c.parts@.len() implies (
        #[trigger] c.parts@[i]).index.wf() by {
            assert(given[i].1.wf());
        }
        c
    }

    /// The number of the part whose root contains `path`.
    pub fn place_of(&self, path: &str) -> (r: Option<usize>)
        ensures
            belongs(
                self.parts@,
                path@,
                match r {
                    Some(j) => Some(j as int),
                    None => None,
                },
            ),
    {
        let mut best: Option<usize> = None;
        let mut i: usize = 0;
        while i < self.parts.len()
            invariant
                i <= self.parts@.len(),
                match best {
                    Some(j) => j < i && innermost(self.parts@.take(i as int), path@, j as int),
                    None => forall|k: int|
                        0 <= k < i ==> !within(path@, (#[trigger] self.parts@[k]).root@),
                },
            decreases self.parts@.len() - i,
        {
            let ghost before = self.parts@.take(i as int);
            let ghost after = self.parts@.take(i + 1);
            let ghost best0 = best;
            assert forall|k: int| 0 <= k < i implies #[trigger] after[k] == before[k] by {}
            assert(after[i as int] == self.parts@[i as int]);
            if is_within(path, self.parts[i].root.as_str()) {
                let longer = match best {
                    None => true,
                    Some(j) => self.parts[i].root.as_str().as_bytes().len()
                        >= self.parts[j].root.as_str().as_bytes().len(),
                };
                if longer {
                    best = Some(i);
                }
            }
            proof {
                match best {
                    Some(j) => {
                        assert(innermost(after, path@, j as int)) by {
                            assert forall|k: int|
                                0 <= k < after.len() && within(
                                    path@,
                                    (#[trigger] after[k]).root@,
                                ) implies encode_utf8(after[k].root@).len() <= encode_utf8(
                                after[j as int].root@,
                            ).len() && (k > j ==> encode_utf8(after[k].root@).len() < encode_utf8(
                                after[j as int].root@,
                            ).len()) by {
                                if k < i {
                                    assert(after[k] == before[k]);
                                    match best0 {
                                        Some(b) => {
                                            assert(before[b as int] == after[b as int]);
                                        },
                                        None => {
                                            assert(after[k] == self.parts@[k]);
                                        },
                                    }
                                }
                            }
                        }
                    },
                    None => {},
                }
            }
            i = i + 1;
        }
        assert(self.parts@.take(i as int) =~= self.parts@);
        best
    }

    /// The part whose root contains `path`: the innermost, if one root is a
    /// separate mount inside another.
    pub fn part_for(&self, path: &str) -> (r: Option<&Part>)
        ensures
            match r {
                Some(p) => exists|j: int| innermost(self.parts@, path@, j) && *p == self.parts@[j],
                None => forall|i: int|
                    0 <= i < self.parts@.len() ==> !within(path@, (#[trigger] self.parts@[i]).root@),
            },
    {
        match self.place_of(path) {
            Some(j) => Some(&self.parts[j]),
            None => None,
        }
    }

    /// Runs `search` on every part in turn for up to `limit` results in all.
    /// Repeats are dropped: a root that is a mount point inside another root is
    /// listed twice, as a folder of the outer tree and as the inner tree's root.
    pub fn search<F: Fn(&Index, usize) -> Result<Vec<Vec<u8>>, String>>(
        &self,
        limit: usize,
        search: F,
    ) -> (r: Result<Vec<Vec<u8>>, String>)
        requires
            self.wf(),
            forall|ix: Index, k: usize| ix.wf() ==> #[trigger] call_requires(search, (&ix, k)),
        ensures
            exists|replies: Seq<Result<Vec<Vec<u8>>, String>>| #[trigger]
                merged_outcome(self.parts@, limit, search, replies, r),
    {
        let mut m = Merge::new();
        let ghost mut replies: Seq<Result<Vec<Vec<u8>>, String>> = seq![];
        let mut i: usize = 0;
        assert(views(m.out@) =~= all_merged(replies));
        while i < self.parts.len() && m.out.len() < limit
            invariant
                self.wf(),
                forall|ix: Index, k: usize| ix.wf() ==> #[trigger] call_requires(search, (&ix, k)),
                i <= self.parts@.len(),
                m.wf(),
                replies.len() == i,
                views(m.out@) == all_merged(replies),
                asked(self.parts@, limit, search, replies),
                i > 0 ==> replies.last() is Ok,
            decreases self.parts@.len() - i,
        {
            let left: usize = limit - m.out.len();
            let ghost before = replies;
            let r = search(&self.parts[i].index, left);
            proof {
                replies = before.push(r);
                assert(replies.drop_last() =~= before);
                assert(views(m.out@).len() == m.out@.len());
                assert forall|j: int| 0 <= j < replies.len() implies {
                    let sofar = all_merged(#[trigger] replies.take(j)).len();
                    &&& sofar < limit
                    &&& call_ensures(
                        search,
                        (&self.parts@[j].index, (limit - sofar) as usize),
                        replies[j],
                    )
                    &&& j < replies.len() - 1 ==> replies[j] is Ok
                } by {
                    if j < i {
                        assert(replies.take(j) =~= before.take(j));
                        assert(replies[j] == before[j]);
                    } else {
                        assert(replies.take(j) =~= before);
                    }
                }
                assert(asked(self.parts@, limit, search, replies));
            }
            match r {
                Ok(hits) => {
                    m.take(&hits);
                },
                Err(e) => {
                    assert(replies.last() == Err::<Vec<Vec<u8>>, _>(e));
                    assert(merged_outcome(
                        self.parts@,
                        limit,
                        search,
                        replies,
                        Err::<Vec<Vec<u8>>, _>(e),
                    ));
                    return Err(e);
                },
            }
            i = i + 1;
        }
        let ghost r = Ok::<Vec<Vec<u8>>, String>(m.out);
        assert(merged_outcome(self.parts@, limit, search, replies, r));
        Ok(m.out)
    }

    /// (live entries, arena slots) over all parts.
    pub fn stats(&self) -> (r: (usize, usize))
        requires
            self.wf(),
            self.countable(),
        ensures
            r.0 == living_in(self.parts@, self.parts@.len()),
            r.1 == slots_in(self.parts@, self.parts@.len()),
    {
        let mut n: usize = 0;
        let mut slots: usize = 0;
        let mut i: usize = 0;
        while i < self.parts.len()
            invariant
                self.wf(),
                self.countable(),
                i <= self.parts@.len(),
                n == living_in(self.parts@, i as nat),
                slots == slots_in(self.parts@, i as nat),
                n <= slots,
            decreases self.parts@.len() - i,
        {
            proof {
                lemma_slots_grow(self.parts@, (i + 1) as nat, self.parts@.len());
                let nodes = self.parts@[i as int].index@.nodes;
                lemma_living(nodes);
            }
            assert(self.parts@[i as int].index.wf());
            n = n + self.parts[i].index.len();
            slots = slots + self.parts[i].index.capacity_used();
            i = i + 1;
        }
        (n, slots)
    }
}

proof fn lemma_slots_grow(parts: Seq<Part>, j: nat, k: nat)
    requires
        j <= k,
    ensures
        slots_in(parts, j) <= slots_in(parts, k),
    decreases k,
{
    if j < k {
        lemma_slots_grow(parts, j, (k - 1) as nat);
    }
}

proof fn lemma_living(nodes: Seq<crate::tree::Node>)
    ensures
        ids_where(living(nodes), nodes.len()).len() <= nodes.len(),
{
    lemma_living_upto(nodes, nodes.len());
}

proof fn lemma_living_upto(nodes: Seq<crate::tree::Node>, k: nat)
    ensures
        ids_where(living(nodes), k).len() <= k,
    decreases k,
{
    if k > 0 {
        lemma_living_upto(nodes, (k - 1) as nat);
    }
}

proof fn lemma_merged_once(out: Seq<Seq<u8>>, hits: Seq<Seq<u8>>)
    requires
        out.no_duplicates(),
    ensures
        merged(out, hits).no_duplicates(),
    decreases hits.len(),
{
    if hits.len() > 0 {
        lemma_merged_once(out, hits.drop_last());
        let before = merged(out, hits.drop_last());
        let after = merged(out, hits);
        if !before.contains(hits.last()) {
            assert forall|i: int, j: int|
                0 <= i < after.len() && 0 <= j < after.len() && i != j implies after[i]
                != after[j] by {
                if i < before.len() {
                    assert(before.contains(before[i]));
                }
                if j < before.len() {
                    assert(before.contains(before[j]));
                }
            }
        }
    }
}

/// No path is reported twice.
pub proof fn nothing_is_reported_twice(replies: Seq<Result<Vec<Vec<u8>>, String>>)
    ensures
        all_merged(replies).no_duplicates(),
    decreases replies.len(),
{
    if replies.len() > 0 {
        nothing_is_reported_twice(replies.drop_last());
        match replies.last() {
            Ok(hits) => {
                lemma_merged_once(all_merged(replies.drop_last()), views(hits@));
            },
            Err(_) => {},
        }
    }
}

proof fn lemma_merged_keeps(out: Seq<Seq<u8>>, hits: Seq<Seq<u8>>, p: Seq<u8>)
    ensures
        merged(out, hits).contains(p) <==> out.contains(p) || hits.contains(p),
    decreases hits.len(),
{
    if hits.len() > 0 {
        lemma_merged_keeps(out, hits.drop_last(), p);
        let before = merged(out, hits.drop_last());
        let last = hits.last();
        let head = hits.drop_last();
        assert(head.push(last) =~= hits);
        crate::ids::lemma_push_contains(head, last, p);
        crate::ids::lemma_push_contains(before, last, p);
    }
}

/// Merging adds no more than there is.
pub proof fn lemma_merged_len(out: Seq<Seq<u8>>, hits: Seq<Seq<u8>>)
    ensures
        merged(out, hits).len() <= out.len() + hits.len(),
    decreases hits.len(),
{
    if hits.len() > 0 {
        lemma_merged_len(out, hits.drop_last());
    }
}

/// What is reported is exactly what some part found.
pub proof fn every_hit_is_reported(replies: Seq<Result<Vec<Vec<u8>>, String>>, p: Seq<u8>)
    ensures
        all_merged(replies).contains(p) <==> exists|j: int|
            0 <= j < replies.len() && ((#[trigger] replies[j]) matches Ok(hits) && views(
                hits@,
            ).contains(p)),
    decreases replies.len(),
{
    if replies.len() > 0 {
        let head = replies.drop_last();
        every_hit_is_reported(head, p);
        match replies.last() {
            Ok(hits) => {
                lemma_merged_keeps(all_merged(head), views(hits@), p);
                if views(hits@).contains(p) {
                    assert(replies[replies.len() - 1] == Ok::<Vec<Vec<u8>>, String>(hits));
                }
            },
            Err(_) => {},
        }
        if all_merged(head).contains(p) {
            let j = choose|j: int|
                0 <= j < head.len() && ((#[trigger] head[j]) matches Ok(hits) && views(
                    hits@,
                ).contains(p));
            assert(replies[j] == head[j]);
        }
        if exists|j: int|
            0 <= j < replies.len() && ((#[trigger] replies[j]) matches Ok(hits) && views(
                hits@,
            ).contains(p)) {
            let j = choose|j: int|
                0 <= j < replies.len() && ((#[trigger] replies[j]) matches Ok(hits) && views(
                    hits@,
                ).contains(p));
            if j < head.len() {
                assert(head[j] == replies[j]);
            }
        }
    }
}

/// What is reported keeps its place when more is found.
pub proof fn later_parts_only_add(
    replies: Seq<Result<Vec<Vec<u8>>, String>>,
    next: Result<Vec<Vec<u8>>, String>,
)
    ensures
        all_merged(replies).is_prefix_of(all_merged(replies.push(next))),
        next is Err ==> all_merged(replies.push(next)) == all_merged(replies),
        all_merged(Seq::<Result<Vec<Vec<u8>>, String>>::empty()) == Seq::<Seq<u8>>::empty(),
{
    let more = replies.push(next);
    assert(more.drop_last() =~= replies);
    match next {
        Ok(hits) => {
            lemma_merged_prefix(all_merged(replies), views(hits@));
        },
        Err(_) => {
            assert(all_merged(replies) =~= all_merged(replies).subrange(
                0,
                all_merged(replies).len() as int,
            ));
        },
    }
}

proof fn lemma_merged_prefix(out: Seq<Seq<u8>>, hits: Seq<Seq<u8>>)
    ensures
        out.is_prefix_of(merged(out, hits)),
    decreases hits.len(),
{
    if hits.len() == 0 {
        assert(out =~= out.subrange(0, out.len() as int));
    } else {
        lemma_merged_prefix(out, hits.drop_last());
        let before = merged(out, hits.drop_last());
        let all = merged(out, hits);
        assert(all.subrange(0, out.len() as int) =~= before.subrange(0, out.len() as int));
    }
}

/// What is new is reported in the order in which it was found.
pub proof fn new_hits_keep_their_order(out: Seq<Seq<u8>>, hits: Seq<Seq<u8>>)
    requires
        hits.no_duplicates(),
        forall|i: int| 0 <= i < hits.len() ==> !out.contains(#[trigger] hits[i]),
    ensures
        merged(out, hits) == out + hits,
    decreases hits.len(),
{
    if hits.len() == 0 {
        assert(out + hits =~= out);
    } else {
        let head = hits.drop_last();
        assert forall|i: int| 0 <= i < head.len() implies !out.contains(#[trigger] head[i]) by {
            assert(head[i] == hits[i]);
        }
        new_hits_keep_their_order(out, head);
        let before = out + head;
        assert(!before.contains(hits.last())) by {
            if before.contains(hits.last()) {
                let k = choose|k: int| 0 <= k < before.len() && before[k] == hits.last();
                if k < out.len() {
                    assert(out[k] == hits.last());
                    assert(out.contains(hits[hits.len() - 1]));
                } else {
                    assert(hits[k - out.len()] == hits[hits.len() - 1]);
                }
            }
        }
        assert(before.push(hits.last()) =~= out + hits);
    }
}

/// The totals are those of the parts together: every entry has a place, and
/// those that are alive are counted.
pub proof fn totals_add_up(parts: Seq<Part>, k: nat)
    requires
        k < parts.len(),
    ensures
        slots_in(parts, k + 1) == slots_in(parts, k) + parts[k as int].index@.nodes.len(),
        slots_in(parts, 0) == 0,
        living_in(parts, 0) == 0,
        (forall|i: int|
            0 <= i < parts[k as int].index@.nodes.len()
                ==> (#[trigger] parts[k as int].index@.nodes[i]).alive) ==> living_in(parts, k + 1)
            == living_in(parts, k) + parts[k as int].index@.nodes.len(),
        (forall|i: int|
            0 <= i < parts[k as int].index@.nodes.len()
                ==> !(#[trigger] parts[k as int].index@.nodes[i]).alive) ==> living_in(parts, k + 1)
            == living_in(parts, k),
{
    let nodes = parts[k as int].index@.nodes;
    if forall|i: int|
        0 <= i < nodes.len() ==> (#[trigger] parts[k as int].index@.nodes[i]).alive {
        assert forall|i: int| 0 <= i < nodes.len() implies (#[trigger] nodes[i]).alive by {
            assert(parts[k as int].index@.nodes[i].alive);
        }
        lemma_all_living(nodes, nodes.len());
    }
    if forall|i: int|
        0 <= i < nodes.len() ==> !(#[trigger] parts[k as int].index@.nodes[i]).alive {
        assert forall|i: int| 0 <= i < nodes.len() implies !(#[trigger] nodes[i]).alive by {
            assert(!parts[k as int].index@.nodes[i].alive);
        }
        lemma_none_living(nodes, nodes.len());
    }
}

proof fn lemma_all_living(nodes: Seq<Node>, k: nat)
    requires
        k <= nodes.len(),
        forall|i: int| 0 <= i < nodes.len() ==> (#[trigger] nodes[i]).alive,
    ensures
        ids_where(living(nodes), k).len() == k,
    decreases k,
{
    if k > 0 {
        lemma_all_living(nodes, (k - 1) as nat);
        assert(nodes[k - 1].alive);
    }
}

proof fn lemma_none_living(nodes: Seq<Node>, k: nat)
    requires
        k <= nodes.len(),
        forall|i: int| 0 <= i < nodes.len() ==> !(#[trigger] nodes[i]).alive,
    ensures
        ids_where(living(nodes), k).len() == 0,
    decreases k,
{
    if k > 0 {
        lemma_none_living(nodes, (k - 1) as nat);
        assert(!nodes[k - 1].alive);
    }
}

/// A path belongs to one part at most: the one whose folder holds it and is the
/// longest to do so.
pub proof fn paths_belong_to_one_part(parts: Seq<Part>, p: Seq<char>, j: int, i: int)
    requires
        innermost(parts, p, j),
        0 <= i < parts.len(),
        within(p, parts[i].root@),
    ensures
        0 <= j < parts.len(),
        within(p, parts[j].root@),
        encode_utf8(parts[i].root@).len() <= encode_utf8(parts[j].root@).len(),
        innermost(parts, p, i) ==> i == j,
        belongs(parts, p, Some(i)) ==> i == j,
        !belongs(parts, p, None),
{
}

/// A path that no part's folder holds belongs to none.
pub proof fn other_paths_belong_nowhere(parts: Seq<Part>, p: Seq<char>, j: int)
    requires
        forall|i: int| 0 <= i < parts.len() ==> !within(p, (#[trigger] parts[i]).root@),
    ensures
        belongs(parts, p, None),
        !belongs(parts, p, Some(j)),
{
}

/// A catalog holds every folder that it is made of, in its place, and leaves out
/// every folder that it is told to.
pub proof fn catalogs_hold_what_they_are_made_of(
    c: Catalog,
    parts: Seq<(String, Index)>,
    exclude: Seq<Seq<char>>,
    i: int,
)
    requires
        made_of(c, parts, exclude),
    ensures
        c.parts@.len() == parts.len(),
        0 <= i < parts.len() ==> c.parts@[i].root == parts[i].0 && c.parts@[i].index == parts[i].1,
        0 <= i < parts.len() ==> c.parts@[i].capture is None && c.parts@[i].listings@.len() == 0,
        c.exclude@.len() == exclude.len(),
        0 <= i < exclude.len() ==> c.exclude@[i]@ == exclude[i],
{
    if 0 <= i < parts.len() {
        assert(c.parts@[i].root == parts[i].0);
    }
    assert(texts(c.exclude@).len() == c.exclude@.len());
    if 0 <= i < exclude.len() {
        assert(texts(c.exclude@)[i] == c.exclude@[i]@);
    }
}

} // verus!
