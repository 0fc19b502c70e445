//! Trigrams: every three-byte window of a folded name.

use vstd::prelude::*;
use std::collections::HashMap;
use crate::bytes::{occurs, occurs_at};
use crate::fold::{fold, folded};
use crate::ids::{ids_where, lemma_ascending_len, lemma_ids_where_agree};
use crate::postings::Postings;
use crate::tree::{same_shape, Node, NO_PARENT};

verus! {

/// Three bytes packed into an integer.
pub open spec fn packed(a: u8, b: u8, c: u8) -> u32 {
    (a * 65536 + b * 256 + c) as u32
}

/// The trigram of `s` at position `w`.
pub open spec fn trigram_at(s: Seq<u8>, w: int) -> u32 {
    packed(s[w], s[w + 1], s[w + 2])
}

/// `key` is one of the trigrams of `s` that start before `n`.
pub open spec fn trigram_before(s: Seq<u8>, n: int, key: u32) -> bool {
    exists|w: int| 0 <= w < n && w + 3 <= s.len() && #[trigger] trigram_at(s, w) == key
}

/// `key` is one of the trigrams of `s`.
pub open spec fn has_trigram(s: Seq<u8>, key: u32) -> bool {
    trigram_before(s, s.len() as int, key)
}

/// Every trigram of `needle` is one of `s`.
pub open spec fn has_all_trigrams(s: Seq<u8>, needle: Seq<u8>) -> bool {
    forall|w: int|
        0 <= w && w + 3 <= needle.len() ==> has_trigram(s, #[trigger] trigram_at(needle, w))
}

/// Selects the nodes whose folded name has the trigram `key`.
pub open spec fn named_with(nodes: Seq<Node>, key: u32) -> spec_fn(int) -> bool {
    |i: int| has_trigram(folded(nodes[i].name), key)
}

/// Selects the nodes whose folded name has every trigram of `needle`.
pub open spec fn candidate(nodes: Seq<Node>, needle: Seq<u8>) -> spec_fn(int) -> bool {
    |i: int| has_all_trigrams(folded(nodes[i].name), needle)
}

/// The ids listed under `key`.
pub open spec fn posting_of(m: Map<u32, Postings>, key: u32) -> Seq<u32> {
    if m.contains_key(key) {
        m[key]@
    } else {
        seq![]
    }
}

/// Every list is well formed, and none is empty.
pub open spec fn lists_ok(m: Map<u32, Postings>) -> bool {
    forall|k: u32| m.contains_key(k) ==> (#[trigger] m[k]).wf() && m[k]@.len() > 0
}

/// The lists hold exactly the trigrams of the names.
pub open spec fn postings_ok(nodes: Seq<Node>, m: Map<u32, Postings>) -> bool {
    &&& lists_ok(m)
    &&& forall|k: u32| #[trigger] posting_of(m, k) == ids_where(named_with(nodes, k), nodes.len())
}

/// What holds a needle has all its trigrams.
pub proof fn lemma_occurs_trigrams(s: Seq<u8>, needle: Seq<u8>)
    requires
        occurs(s, needle),
    ensures
        has_all_trigrams(s, needle),
{
    let i = choose|i: int| occurs_at(s, needle, i);
    assert forall|w: int| 0 <= w && w + 3 <= needle.len() implies has_trigram(
        s,
        #[trigger] trigram_at(needle, w),
    ) by {
        let sub = s.subrange(i, i + needle.len());
        assert(sub[w] == s[i + w] && sub[w + 1] == s[i + w + 1] && sub[w + 2] == s[i + w + 2]);
        assert(trigram_at(s, i + w) == trigram_at(needle, w));
    }
}

/// Nodes of the same shape have the same lists.
pub proof fn lemma_same_shape_postings(a: Seq<Node>, b: Seq<Node>, m: Map<u32, Postings>)
    requires
        same_shape(a, b),
        postings_ok(a, m),
    ensures
        postings_ok(b, m),
{
    assert forall|k: u32| #[trigger]
        posting_of(m, k) == ids_where(named_with(b, k), b.len()) by {
        assert forall|i: int| 0 <= i < a.len() implies named_with(a, k)(i) == #[trigger] named_with(
            b,
            k,
        )(i) by {
            assert(a[i].name == b[i].name);
        }
        lemma_ids_where_agree(named_with(a, k), named_with(b, k), a.len());
    }
}

/// A new node at the end joins the lists of its name's trigrams.
pub proof fn lemma_push_postings(
    nodes: Seq<Node>,
    n: Node,
    m: Map<u32, Postings>,
    more: Map<u32, Postings>,
)
    requires
        postings_ok(nodes, m),
        lists_ok(more),
        forall|k: u32| #[trigger]
            posting_of(more, k) == (if has_trigram(folded(n.name), k) {
                posting_of(m, k).push(nodes.len() as u32)
            } else {
                posting_of(m, k)
            }),
    ensures
        postings_ok(nodes.push(n), more),
{
    let all = nodes.push(n);
    assert forall|k: u32| #[trigger]
        posting_of(more, k) == ids_where(named_with(all, k), all.len()) by {
        assert forall|i: int| 0 <= i < nodes.len() implies named_with(all, k)(i)
            == #[trigger] named_with(nodes, k)(i) by {
            assert(all[i] == nodes[i]);
        }
        lemma_ids_where_agree(named_with(all, k), named_with(nodes, k), nodes.len());
        assert(posting_of(m, k) == ids_where(named_with(nodes, k), nodes.len()));
        assert(all[nodes.len() as int] == n);
    }
}

/// The trigram of `s` at `w`.
pub fn pack(s: &[u8], w: usize) -> (key: u32)
    requires
        w + 3 <= s.len(),
    ensures
        key == trigram_at(s@, w as int),
{
    (s[w] as u32) * 65536 + (s[w + 1] as u32) * 256 + (s[w + 2] as u32)
}

/// Appends `id` to the list of `key`.
fn post(m: &mut HashMap<u32, Postings>, key: u32, id: u32)
    requires
        lists_ok(old(m)@),
        id < NO_PARENT,
    ensures
        lists_ok(final(m)@),
        forall|k: u32| k != key ==> #[trigger] posting_of(final(m)@, k) == posting_of(old(m)@, k),
        posting_of(final(m)@, key) == ({
            let s = posting_of(old(m)@, key);
            if s.len() > 0 && id <= s.last() {
                s
            } else {
                s.push(id)
            }
        }),
{
    let list = m.entry(key).or_insert(Postings::new());
    proof {
        if list@.len() > 0 && list@.last() < id {
            lemma_ascending_len(list@, id as int);
        }
    }
    list.push(id);
}

/// Enters `id` under every trigram of `name`.
pub fn for_each_trigram(m: &mut HashMap<u32, Postings>, name: &[u8], id: u32)
    requires
        lists_ok(old(m)@),
        id < NO_PARENT,
        forall|k: u32, j: int|
            0 <= j < posting_of(old(m)@, k).len() ==> #[trigger] posting_of(old(m)@, k)[j] < id,
    ensures
        lists_ok(final(m)@),
        forall|k: u32| #[trigger]
            posting_of(final(m)@, k) == (if has_trigram(folded(name@), k) {
                posting_of(old(m)@, k).push(id)
            } else {
                posting_of(old(m)@, k)
            }),
{
    let f = fold(name);
    let n: usize = if f.len() < 3 {
        0
    } else {
        f.len() - 2
    };
    let mut w: usize = 0;
    while w < n
        invariant
            n == (if f.len() < 3 {
                0
            } else {
                f.len() - 2
            }),
            w <= n,
            f@ == folded(name@),
            id < NO_PARENT,
            lists_ok(m@),
            forall|k: u32, j: int|
                0 <= j < posting_of(old(m)@, k).len() ==> #[trigger] posting_of(old(m)@, k)[j] < id,
            forall|k: u32| #[trigger]
                posting_of(m@, k) == (if trigram_before(f@, w as int, k) {
                    posting_of(old(m)@, k).push(id)
                } else {
                    posting_of(old(m)@, k)
                }),
        decreases n - w,
    {
        let key = pack(f.as_slice(), w);
        let ghost before = m@;
        post(m, key, id);
        proof {
            assert forall|k: u32| #[trigger]
                posting_of(m@, k) == (if trigram_before(f@, w + 1, k) {
                    posting_of(old(m)@, k).push(id)
                } else {
                    posting_of(old(m)@, k)
                }) by {
                assert(posting_of(before, k) == (if trigram_before(f@, w as int, k) {
                    posting_of(old(m)@, k).push(id)
                } else {
                    posting_of(old(m)@, k)
                }));
                let s = posting_of(old(m)@, k);
                if s.len() > 0 {
                    assert(s[s.len() - 1] < id);
                }
                if k == key {
                    assert(trigram_at(f@, w as int) == key);
                    assert(trigram_before(f@, w + 1, k));
                } else {
                    if trigram_before(f@, w + 1, k) {
                        let v = choose|v: int|
                            0 <= v < w + 1 && v + 3 <= f@.len() && #[trigger] trigram_at(f@, v)
                                == k;
                        assert(v < w);
                    }
                }
            }
        }
        w = w + 1;
    }
    proof {
        assert forall|k: u32| trigram_before(f@, n as int, k) <==> has_trigram(f@, k) by {
            if has_trigram(f@, k) {
                let v = choose|v: int|
                    0 <= v < f@.len() && v + 3 <= f@.len() && #[trigger] trigram_at(f@, v) == k;
                assert(v < n);
            }
        }
    }
}

/// Every name that holds the key, in any case, is a candidate, and a candidate holds
/// every three bytes of the key that stand together.
pub proof fn candidates_hold_every_trigram(nodes: Seq<Node>, key: Seq<u8>, i: int, w: int)
    ensures
        occurs(folded(nodes[i].name), key) ==> candidate(nodes, key)(i),
        candidate(nodes, key)(i) && 0 <= w && w + 3 <= key.len() ==> has_trigram(
            folded(nodes[i].name),
            trigram_at(key, w),
        ),
{
    if occurs(folded(nodes[i].name), key) {
        lemma_occurs_trigrams(folded(nodes[i].name), key);
    }
}

} // verus!
