//! Byte strings: equality, substring search, and the like.

use vstd::prelude::*;

verus! {

/// The path separator.
pub const SLASH: u8 = 0x2f;

/// The leading byte of a hidden name.
pub const DOT: u8 = 0x2e;

/// `needle` stands in `hay` at position `i`.
pub open spec fn occurs_at(hay: Seq<u8>, needle: Seq<u8>, i: int) -> bool {
    0 <= i && i + needle.len() <= hay.len() && hay.subrange(i, i + needle.len()) == needle
}

/// `needle` stands somewhere in `hay`.
pub open spec fn occurs(hay: Seq<u8>, needle: Seq<u8>) -> bool {
    exists|i: int| occurs_at(hay, needle, i)
}

/// `tail` is a suffix of `s`.
pub open spec fn has_suffix(s: Seq<u8>, tail: Seq<u8>) -> bool {
    tail.len() <= s.len() && s.skip(s.len() - tail.len()) == tail
}

/// `head` is a prefix of `s`.
pub open spec fn has_prefix(s: Seq<u8>, head: Seq<u8>) -> bool {
    head.len() <= s.len() && s.take(head.len() as int) == head
}

/// The bytes of what may be missing.
pub open spec fn bytes_if(r: Option<Vec<u8>>) -> Option<Seq<u8>> {
    match r {
        Some(b) => Some(b@),
        None => None,
    }
}

/// The byte strings of a list.
pub open spec fn views<T>(v: Seq<Vec<T>>) -> Seq<Seq<T>> {
    Seq::new(v.len(), |i: int| v[i]@)
}

/// A needle found in one part is found in the whole.
pub proof fn lemma_occurs_within(x: Seq<u8>, mid: Seq<u8>, y: Seq<u8>, needle: Seq<u8>)
    requires
        occurs(mid, needle),
    ensures
        occurs(x + mid + y, needle),
{
    let i = choose|i: int| occurs_at(mid, needle, i);
    let whole = x + mid + y;
    let at = i + x.len();
    assert(whole.subrange(at, at + needle.len()) =~= mid.subrange(i, i + needle.len()));
    assert(occurs_at(whole, needle, at));
}

/// Whether two byte strings are equal.
pub fn same(a: &[u8], b: &[u8]) -> (r: bool)
    ensures
        r == (a@ == b@),
{
    if a.len() != b.len() {
        return false;
    }
    let mut i: usize = 0;
    while i < a.len()
        invariant
            i <= a.len(),
            a.len() == b.len(),
            forall|k: int| 0 <= k < i ==> a@[k] == b@[k],
        decreases a.len() - i,
    {
        if a[i] != b[i] {
            assert(a@[i as int] != b@[i as int]);
            return false;
        }
        i = i + 1;
    }
    assert(a@ =~= b@);
    true
}

/// Whether `needle` stands in `hay` at position `at`.
pub fn matches_at(hay: &[u8], needle: &[u8], at: usize) -> (r: bool)
    requires
        at + needle.len() <= hay.len(),
    ensures
        r == occurs_at(hay@, needle@, at as int),
{
    let mut i: usize = 0;
    while i < needle.len()
        invariant
            i <= needle.len(),
            at + needle.len() <= hay.len(),
            forall|k: int| 0 <= k < i ==> hay@[at + k] == needle@[k],
        decreases needle.len() - i,
    {
        if hay[at + i] != needle[i] {
            proof {
                if hay@.subrange(at as int, at + needle.len()) == needle@ {
                    assert(hay@.subrange(at as int, at + needle.len())[i as int] == hay@[at + i]);
                }
            }
            return false;
        }
        i = i + 1;
    }
    assert(hay@.subrange(at as int, at + needle.len()) =~= needle@);
    true
}

/// Whether `needle` stands anywhere in `hay`.
pub fn contains(hay: &[u8], needle: &[u8]) -> (r: bool)
    ensures
        r == occurs(hay@, needle@),
{
    if needle.len() > hay.len() {
        return false;
    }
    let last: usize = hay.len() - needle.len();
    let mut i: usize = 0;
    while i <= last
        invariant
            last + needle.len() == hay.len(),
            i <= last + 1,
            forall|k: int| 0 <= k < i ==> !occurs_at(hay@, needle@, k),
        ensures
            forall|k: int| 0 <= k <= last ==> !occurs_at(hay@, needle@, k),
        decreases last + 1 - i,
    {
        if matches_at(hay, needle, i) {
            return true;
        }
        if i == last {
            break;
        }
        i = i + 1;
    }
    assert forall|k: int| !occurs_at(hay@, needle@, k) by {}
    false
}

/// Whether `hay` ends with `tail`.
pub fn ends_with(hay: &[u8], tail: &[u8]) -> (r: bool)
    ensures
        r == has_suffix(hay@, tail@),
{
    if tail.len() > hay.len() {
        return false;
    }
    let at: usize = hay.len() - tail.len();
    let r = matches_at(hay, tail, at);
    assert(hay@.skip(at as int) =~= hay@.subrange(at as int, at + tail.len()));
    r
}

/// Whether `hay` starts with `head`.
pub fn starts_with(hay: &[u8], head: &[u8]) -> (r: bool)
    ensures
        r == has_prefix(hay@, head@),
{
    if head.len() > hay.len() {
        return false;
    }
    let r = matches_at(hay, head, 0);
    assert(hay@.take(head.len() as int) =~= hay@.subrange(0, head.len() as int));
    r
}

/// Appends `tail` to `out`.
pub fn append(out: &mut Vec<u8>, tail: &[u8])
    ensures
        final(out)@ == old(out)@ + tail@,
{
    let mut i: usize = 0;
    while i < tail.len()
        invariant
            i <= tail.len(),
            out@ == old(out)@ + tail@.take(i as int),
        decreases tail.len() - i,
    {
        out.push(tail[i]);
        assert(tail@.take(i + 1) =~= tail@.take(i as int).push(tail@[i as int]));
        i = i + 1;
    }
    assert(tail@.take(i as int) =~= tail@);
}

/// A copy of `b`.
pub fn copy(b: &[u8]) -> (out: Vec<u8>)
    ensures
        out@ == b@,
{
    let mut out: Vec<u8> = Vec::new();
    append(&mut out, b);
    assert(out@ =~= b@);
    out
}

/// A copy of `b[from..to]`.
pub fn copy_range(b: &[u8], from: usize, to: usize) -> (out: Vec<u8>)
    requires
        from <= to <= b.len(),
    ensures
        out@ == b@.subrange(from as int, to as int),
{
    let mut out: Vec<u8> = Vec::new();
    let mut i: usize = from;
    while i < to
        invariant
            from <= i <= to <= b.len(),
            out@ == b@.subrange(from as int, i as int),
        decreases to - i,
    {
        out.push(b[i]);
        assert(b@.subrange(from as int, i + 1) =~= b@.subrange(from as int, i as int).push(
            b@[i as int],
        ));
        i = i + 1;
    }
    out
}

/// A needle occurs where a string is made of it and anything around it, starts a
/// string that is made of it and anything behind it, and ends one likewise.
pub proof fn parts_are_found(a: Seq<u8>, needle: Seq<u8>, b: Seq<u8>)
    ensures
        occurs(a + needle + b, needle),
        has_prefix(needle + b, needle),
        has_suffix(a + needle, needle),
{
    let s = a + needle + b;
    assert(s.subrange(a.len() as int, a.len() as int + needle.len()) =~= needle);
    assert(occurs_at(s, needle, a.len() as int));
    assert((needle + b).take(needle.len() as int) =~= needle);
    assert((a + needle).skip(a.len() as int) =~= needle);
}

/// What occurs stands somewhere, byte by byte; a start stands at the start, and an
/// end at the end.
pub proof fn what_is_found_is_there(hay: Seq<u8>, needle: Seq<u8>)
    ensures
        occurs(hay, needle) ==> exists|i: int|
            0 <= i <= hay.len() - needle.len() && #[trigger] hay.subrange(i, i + needle.len())
                == needle,
        has_prefix(hay, needle) ==> needle.len() <= hay.len() && forall|k: int|
            0 <= k < needle.len() ==> #[trigger] hay[k] == needle[k],
        has_suffix(hay, needle) ==> needle.len() <= hay.len() && forall|k: int|
            0 <= k < needle.len() ==> hay[hay.len() - needle.len() + k] == #[trigger] needle[k],
{
    if occurs(hay, needle) {
        let i = choose|i: int| occurs_at(hay, needle, i);
        assert(hay.subrange(i, i + needle.len()) == needle);
    }
    if has_prefix(hay, needle) {
        assert forall|k: int| 0 <= k < needle.len() implies #[trigger] hay[k] == needle[k] by {
            assert(hay.take(needle.len() as int)[k] == needle[k]);
        }
    }
    if has_suffix(hay, needle) {
        assert forall|k: int| 0 <= k < needle.len() implies hay[hay.len() - needle.len() + k]
            == #[trigger] needle[k] by {
            assert(hay.skip(hay.len() - needle.len())[k] == needle[k]);
        }
    }
}

} // verus!
