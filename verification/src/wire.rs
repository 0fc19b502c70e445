//! Little-endian numbers in byte strings.

use vstd::prelude::*;

verus! {

/// Two bytes, least significant first. Only the low 16 bits of `n` count.
#[verifier::opaque]
pub open spec fn le2(n: nat) -> Seq<u8> {
    seq![(n % 256) as u8, (n / 256 % 256) as u8]
}

/// Four bytes, least significant first. Only the low 32 bits of `n` count.
#[verifier::opaque]
pub open spec fn le4(n: nat) -> Seq<u8> {
    le2(n % 65536) + le2(n / 65536)
}

/// Eight bytes, least significant first. Only the low 64 bits of `n` count.
#[verifier::opaque]
pub open spec fn le8(n: nat) -> Seq<u8> {
    le4(n % 0x1_0000_0000) + le4(n / 0x1_0000_0000)
}

/// The number in two bytes at `at`.
pub open spec fn u16_at(s: Seq<u8>, at: int) -> nat {
    (s[at] + 256 * s[at + 1]) as nat
}

/// The number in four bytes at `at`.
pub open spec fn u32_at(s: Seq<u8>, at: int) -> nat {
    u16_at(s, at) + 65536 * u16_at(s, at + 2)
}

/// The number in eight bytes at `at`.
pub open spec fn u64_at(s: Seq<u8>, at: int) -> nat {
    u32_at(s, at) + 0x1_0000_0000 * u32_at(s, at + 4)
}

/// `part` stands in `s` at `at`.
#[verifier::opaque]
pub open spec fn stands_at(s: Seq<u8>, at: int, part: Seq<u8>) -> bool {
    0 <= at && at + part.len() <= s.len() && s.subrange(at, at + part.len()) == part
}

/// How long the encodings are.
pub broadcast proof fn lemma_le2_len(n: nat)
    ensures
        (#[trigger] le2(n)).len() == 2,
{
    reveal(le2);
}

pub broadcast proof fn lemma_le4_len(n: nat)
    ensures
        (#[trigger] le4(n)).len() == 4,
{
    reveal(le2);
    reveal(le4);
}

pub broadcast proof fn lemma_le8_len(n: nat)
    ensures
        (#[trigger] le8(n)).len() == 8,
{
    reveal(le2);
    reveal(le4);
    reveal(le8);
}

pub broadcast group group_le_len {
    lemma_le2_len,
    lemma_le4_len,
    lemma_le8_len,
}

/// Two halves stand one after the other.
pub proof fn lemma_stands_split(s: Seq<u8>, at: int, a: Seq<u8>, b: Seq<u8>)
    requires
        stands_at(s, at, a + b),
    ensures
        stands_at(s, at, a),
        stands_at(s, at + a.len(), b),
{
    reveal(stands_at);
    let sub = s.subrange(at, at + (a + b).len());
    assert(s.subrange(at, at + a.len()) =~= sub.take(a.len() as int));
    assert((a + b).take(a.len() as int) =~= a);
    assert(s.subrange(at + a.len(), at + a.len() + b.len()) =~= sub.skip(a.len() as int));
    assert((a + b).skip(a.len() as int) =~= b);
}

/// Everything stands at its own start.
pub proof fn lemma_stands_whole(s: Seq<u8>)
    ensures
        stands_at(s, 0, s),
{
    reveal(stands_at);
    assert(s.subrange(0, s.len() as int) =~= s);
}

pub proof fn lemma_stands_in(s: Seq<u8>, at: int, part: Seq<u8>)
    requires
        stands_at(s, at, part),
    ensures
        0 <= at,
        at + part.len() <= s.len(),
        s.subrange(at, at + part.len()) == part,
{
    reveal(stands_at);
}

pub proof fn lemma_u16(s: Seq<u8>, at: int, n: nat)
    requires
        stands_at(s, at, le2(n)),
    ensures
        u16_at(s, at) == n % 65536,
{
    lemma_stands_in(s, at, le2(n));
    reveal(le2);
    let sub = s.subrange(at, at + 2);
    assert(sub[0] == s[at] && sub[1] == s[at + 1]);
}

pub proof fn lemma_u32(s: Seq<u8>, at: int, n: nat)
    requires
        stands_at(s, at, le4(n)),
    ensures
        u32_at(s, at) == n % 0x1_0000_0000,
{
    broadcast use group_le_len;
    reveal(le4);
    lemma_stands_split(s, at, le2(n % 65536), le2(n / 65536));
    lemma_u16(s, at, n % 65536);
    lemma_u16(s, at + 2, n / 65536);
}

pub proof fn lemma_u64(s: Seq<u8>, at: int, n: nat)
    requires
        stands_at(s, at, le8(n)),
        n < 0x1_0000_0000_0000_0000,
    ensures
        u64_at(s, at) == n,
{
    broadcast use group_le_len;
    reveal(le8);
    lemma_stands_split(s, at, le4(n % 0x1_0000_0000), le4(n / 0x1_0000_0000));
    lemma_u32(s, at, n % 0x1_0000_0000);
    lemma_u32(s, at + 4, n / 0x1_0000_0000);
}

/// Appends the low 16 bits of `n`.
pub fn push_u16(out: &mut Vec<u8>, n: u64)
    ensures
        final(out)@ == old(out)@ + le2(n as nat),
{
    proof {
        reveal(le2);
    }
    out.push((n % 256) as u8);
    out.push((n / 256 % 256) as u8);
    assert(out@ =~= old(out)@ + le2(n as nat));
}

/// Appends the low 32 bits of `n`.
pub fn push_u32(out: &mut Vec<u8>, n: u64)
    ensures
        final(out)@ == old(out)@ + le4(n as nat),
{
    proof {
        reveal(le4);
    }
    push_u16(out, n % 65536);
    push_u16(out, n / 65536);
    assert(out@ =~= old(out)@ + le4(n as nat));
}

/// Appends `n`.
pub fn push_u64(out: &mut Vec<u8>, n: u64)
    ensures
        final(out)@ == old(out)@ + le8(n as nat),
{
    proof {
        reveal(le8);
    }
    push_u32(out, n % 0x1_0000_0000);
    push_u32(out, n / 0x1_0000_0000);
    assert(out@ =~= old(out)@ + le8(n as nat));
}

/// The number in two bytes at `at`.
pub fn read_u16(s: &[u8], at: usize) -> (n: u16)
    requires
        at + 2 <= s.len(),
    ensures
        n == u16_at(s@, at as int),
{
    (s[at] as u16) + 256 * (s[at + 1] as u16)
}

/// The number in four bytes at `at`.
pub fn read_u32(s: &[u8], at: usize) -> (n: u32)
    requires
        at + 4 <= s.len(),
    ensures
        n == u32_at(s@, at as int),
{
    (read_u16(s, at) as u32) + 65536 * (read_u16(s, at + 2) as u32)
}

/// The number in eight bytes at `at`.
pub fn read_u64(s: &[u8], at: usize) -> (n: u64)
    requires
        at + 8 <= s.len(),
    ensures
        n == u64_at(s@, at as int),
{
    (read_u32(s, at) as u64) + 0x1_0000_0000 * (read_u32(s, at + 4) as u64)
}

/// A number is read with its least significant byte first.
pub proof fn lesser_bytes_come_first(s: Seq<u8>, at: int)
    ensures
        u16_at(s, at) == s[at] + 0x100 * s[at + 1],
        u32_at(s, at) == s[at] + 0x100 * s[at + 1] + 0x1_0000 * s[at + 2] + 0x100_0000 * s[at + 3],
        u64_at(s, at) == u32_at(s, at) + 0x1_0000_0000 * s[at + 4] + 0x100_0000_0000 * s[at + 5]
            + 0x1_0000_0000_0000 * s[at + 6] + 0x100_0000_0000_0000 * s[at + 7],
{
}

/// What is written in eight bytes, in four or in two is read back from them, as
/// far as there is room for it.
pub proof fn written_numbers_are_read_back(n: nat)
    ensures
        le2(n).len() == 2 && u16_at(le2(n), 0) == n % 0x1_0000,
        le4(n).len() == 4 && u32_at(le4(n), 0) == n % 0x1_0000_0000,
        le8(n).len() == 8,
        n < 0x1_0000_0000_0000_0000 ==> u64_at(le8(n), 0) == n,
{
    broadcast use group_le_len;

    lemma_stands_whole(le2(n));
    lemma_stands_whole(le4(n));
    lemma_stands_whole(le8(n));
    lemma_u16(le2(n), 0, n);
    lemma_u32(le4(n), 0, n);
    if n < 0x1_0000_0000_0000_0000 {
        lemma_u64(le8(n), 0, n);
    }
}

} // verus!
