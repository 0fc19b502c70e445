//! Snapshots of an index as bytes.
//!
//! A snapshot carries no inode numbers. It exists to answer queries at once at
//! startup, while a full scan runs behind it.
//!
//! Layout: magic, part count, then per indexed folder its root path and its
//! arena (count, root id, entries). The single-index layout of pre-release
//! builds is still read.

use vstd::prelude::*;
use vstd::utf8::{
    decode_utf8, encode_utf8, encode_utf8_decode_utf8, encode_utf8_valid_utf8, valid_utf8,
};
use crate::bytes::{append, copy_range, matches_at};
use crate::index::{nodes_of, Entry, Index, IndexView};
use crate::maintain::{lossy, lossy_text};
use crate::tree::{parents_first, Node, NO_PARENT};
use crate::wire::{
    group_le_len, le2, le4, le8, lemma_stands_in, lemma_stands_split, lemma_stands_whole, lemma_u16,
    lemma_u32, lemma_u64, push_u16, push_u32, push_u64, read_u16, read_u32, read_u64, stands_at,
    u16_at, u32_at, u64_at,
};

verus! {

/// More parts than any real configuration; beyond it the file is corrupt.
pub const MAX_PARTS: u32 = 4096;

/// "SPOOR002"
pub open spec fn magic() -> Seq<u8> {
    seq![0x53, 0x50, 0x4f, 0x4f, 0x52, 0x30, 0x30, 0x32]
}

/// "EVRYTHD1": one index, whose root entry names its folder.
pub open spec fn magic_v1() -> Seq<u8> {
    seq![0x45, 0x56, 0x52, 0x59, 0x54, 0x48, 0x44, 0x31]
}

/// `String::from_utf8`: the text of valid UTF-8, and nothing otherwise.
#[verifier::external_body]
fn text_from_utf8(b: Vec<u8>) -> (r: Option<String>)
    ensures
        r is Some <==> valid_utf8(b@),
        r matches Some(s) ==> s@ == decode_utf8(b@),
{
    String::from_utf8(b).ok()
}

/// Why a snapshot was refused.
#[derive(Clone, Copy, Debug, PartialEq, Eq, Structural)]
pub enum SnapshotError {
    /// It ends too early.
    Truncated,
    BadMagic,
    PartCount,
    RootNotUtf8,
    EntryCount,
    RootOutOfRange,
    /// An entry precedes its parent.
    ParentOrder,
}

/// What is said of a refused snapshot.
pub open spec fn error_text(e: SnapshotError) -> Seq<char> {
    match e {
        SnapshotError::Truncated => "failed to fill whole buffer"@,
        SnapshotError::BadMagic => "bad snapshot magic"@,
        SnapshotError::PartCount => "implausible part count"@,
        SnapshotError::RootNotUtf8 => "root path is not UTF-8"@,
        SnapshotError::EntryCount => "implausible entry count"@,
        SnapshotError::RootOutOfRange => "root out of range"@,
        SnapshotError::ParentOrder => "entry precedes its parent"@,
    }
}

impl SnapshotError {
    pub fn text(&self) -> (s: &'static str)
        ensures
            s@ == error_text(*self),
    {
        match self {
            SnapshotError::Truncated => "failed to fill whole buffer",
            SnapshotError::BadMagic => "bad snapshot magic",
            SnapshotError::PartCount => "implausible part count",
            SnapshotError::RootNotUtf8 => "root path is not UTF-8",
            SnapshotError::EntryCount => "implausible entry count",
            SnapshotError::RootOutOfRange => "root out of range",
            SnapshotError::ParentOrder => "entry precedes its parent",
        }
    }
}

/// What a snapshot holds of one indexed folder.
#[verifier::ext_equal]
pub struct PartView {
    pub root: Seq<char>,
    pub nodes: Seq<Node>,
    pub root_id: u32,
}

// Writing.

/// Bit 0: a folder; bit 1: alive.
pub open spec fn entry_flags(n: Node) -> u8 {
    ((if n.is_dir {
        1int
    } else {
        0
    }) + (if n.alive {
        2int
    } else {
        0
    })) as u8
}

pub open spec fn entry_bytes(n: Node) -> Seq<u8> {
    le4(n.parent as nat) + seq![entry_flags(n)] + le2(n.name.len()) + n.name
}

/// The first `k` entries.
pub open spec fn entries_bytes(nodes: Seq<Node>, k: nat) -> Seq<u8>
    decreases k,
{
    if k == 0 {
        seq![]
    } else {
        entries_bytes(nodes, (k - 1) as nat) + entry_bytes(nodes[k - 1])
    }
}

#[verifier::opaque]
pub open spec fn index_bytes(nodes: Seq<Node>, root: u32) -> Seq<u8> {
    le8(nodes.len()) + le4(root as nat) + entries_bytes(nodes, nodes.len())
}

pub open spec fn part_bytes(p: PartView) -> Seq<u8> {
    le2(encode_utf8(p.root).len()) + encode_utf8(p.root) + index_bytes(p.nodes, p.root_id)
}

/// The first `k` parts.
pub open spec fn parts_bytes(parts: Seq<PartView>, k: nat) -> Seq<u8>
    decreases k,
{
    if k == 0 {
        seq![]
    } else {
        parts_bytes(parts, (k - 1) as nat) + part_bytes(parts[k - 1])
    }
}

pub open spec fn snapshot_bytes(parts: Seq<PartView>) -> Seq<u8> {
    magic() + le4(parts.len()) + parts_bytes(parts, parts.len())
}

/// The parts of a list of folders and their indexes.
pub open spec fn part_views(parts: Seq<(&str, &Index)>) -> Seq<PartView> {
    Seq::new(
        parts.len(),
        |i: int|
            PartView {
                root: parts[i].0@,
                nodes: parts[i].1@.nodes,
                root_id: parts[i].1@.root,
            },
    )
}

// Reading.

/// The first `k` entries at `at`, and where they end.
pub open spec fn entries_at(s: Seq<u8>, at: int, k: nat) -> Result<
    (Seq<Node>, int),
    SnapshotError,
>
    decreases k,
{
    if k == 0 {
        Ok((seq![], at))
    } else {
        match entries_at(s, at, (k - 1) as nat) {
            Err(e) => Err(e),
            Ok((nodes, p)) => {
                if p + 4 > s.len() {
                    Err(SnapshotError::Truncated)
                } else if u32_at(s, p) != NO_PARENT && u32_at(s, p) >= k - 1 {
                    Err(SnapshotError::ParentOrder)
                } else if p + 7 > s.len() || p + 7 + u16_at(s, p + 5) > s.len() {
                    Err(SnapshotError::Truncated)
                } else {
                    Ok(
                        (
                            nodes.push(
                                Node {
                                    parent: u32_at(s, p) as u32,
                                    name: s.subrange(p + 7, p + 7 + u16_at(s, p + 5)),
                                    is_dir: s[p + 4] % 2 == 1,
                                    alive: s[p + 4] / 2 % 2 == 1,
                                },
                            ),
                            p + 7 + u16_at(s, p + 5),
                        ),
                    )
                }
            },
        }
    }
}

/// The arena at `at`, its root, and where it ends.
#[verifier::opaque]
pub open spec fn index_at(s: Seq<u8>, at: int) -> Result<(Seq<Node>, u32, int), SnapshotError> {
    if at + 8 > s.len() {
        Err(SnapshotError::Truncated)
    } else if u64_at(s, at) >= NO_PARENT {
        Err(SnapshotError::EntryCount)
    } else if at + 12 > s.len() {
        Err(SnapshotError::Truncated)
    } else {
        let count = u64_at(s, at);
        let root = u32_at(s, at + 8) as u32;
        if !(root < count || (count == 0 && root == NO_PARENT)) {
            Err(SnapshotError::RootOutOfRange)
        } else {
            match entries_at(s, at + 12, count) {
                Err(e) => Err(e),
                Ok((nodes, end)) => Ok((nodes, root, end)),
            }
        }
    }
}

/// The part at `at`, and where it ends.
pub open spec fn part_at(s: Seq<u8>, at: int) -> Result<(PartView, int), SnapshotError> {
    if at + 2 > s.len() || at + 2 + u16_at(s, at) > s.len() {
        Err(SnapshotError::Truncated)
    } else {
        let name = s.subrange(at + 2, at + 2 + u16_at(s, at));
        if !valid_utf8(name) {
            Err(SnapshotError::RootNotUtf8)
        } else {
            match index_at(s, at + 2 + u16_at(s, at)) {
                Err(e) => Err(e),
                Ok((nodes, root_id, end)) => Ok(
                    (PartView { root: decode_utf8(name), nodes, root_id }, end),
                ),
            }
        }
    }
}

/// The first `k` parts at `at`, and where they end.
pub open spec fn parts_at(s: Seq<u8>, at: int, k: nat) -> Result<
    (Seq<PartView>, int),
    SnapshotError,
>
    decreases k,
{
    if k == 0 {
        Ok((seq![], at))
    } else {
        match parts_at(s, at, (k - 1) as nat) {
            Err(e) => Err(e),
            Ok((parts, p)) => match part_at(s, p) {
                Err(e) => Err(e),
                Ok((part, end)) => Ok((parts.push(part), end)),
            },
        }
    }
}

/// What a snapshot holds.
pub open spec fn snapshot_of(s: Seq<u8>) -> Result<Seq<PartView>, SnapshotError> {
    if s.len() < 8 {
        Err(SnapshotError::Truncated)
    } else if s.take(8) == magic_v1() {
        match index_at(s, 8) {
            Err(e) => Err(e),
            Ok((nodes, root_id, end)) => if root_id < nodes.len() {
                Ok(
                    seq![
                        PartView { root: lossy_text(nodes[root_id as int].name), nodes, root_id },
                    ],
                )
            } else {
                Err(SnapshotError::RootOutOfRange)
            },
        }
    } else if s.take(8) != magic() {
        Err(SnapshotError::BadMagic)
    } else if s.len() < 12 {
        Err(SnapshotError::Truncated)
    } else if u32_at(s, 8) > MAX_PARTS {
        Err(SnapshotError::PartCount)
    } else {
        match parts_at(s, 12, u32_at(s, 8)) {
            Err(e) => Err(e),
            Ok((parts, end)) => Ok(parts),
        }
    }
}

/// Once reading entries fails, it stays failed.
proof fn lemma_entries_fail(s: Seq<u8>, at: int, j: nat, k: nat)
    requires
        j <= k,
        entries_at(s, at, j) is Err,
    ensures
        entries_at(s, at, k) == entries_at(s, at, j),
    decreases k,
{
    if j < k {
        lemma_entries_fail(s, at, j, (k - 1) as nat);
    }
}

proof fn lemma_parts_fail(s: Seq<u8>, at: int, j: nat, k: nat)
    requires
        j <= k,
        parts_at(s, at, j) is Err,
    ensures
        parts_at(s, at, k) == parts_at(s, at, j),
    decreases k,
{
    if j < k {
        lemma_parts_fail(s, at, j, (k - 1) as nat);
    }
}

/// Appends the arena of `ix`.
pub fn write_index(out: &mut Vec<u8>, ix: &Index)
    ensures
        final(out)@ == old(out)@ + index_bytes(ix@.nodes, ix@.root),
{
    proof {
        reveal(index_bytes);
    }
    let ghost nodes = ix@.nodes;
    push_u64(out, ix.entries.len() as u64);
    push_u32(out, ix.root as u64);
    let ghost head = out@;
    let mut i: usize = 0;
    assert(out@ =~= head + entries_bytes(nodes, 0));
    while i < ix.entries.len()
        invariant
            nodes == ix@.nodes,
            i <= nodes.len(),
            nodes.len() == ix.entries@.len(),
            out@ == head + entries_bytes(nodes, i as nat),
        decreases ix.entries.len() - i,
    {
        let ghost before = out@;
        let e = &ix.entries[i];
        assert(nodes[i as int] == e@);
        push_u32(out, e.parent as u64);
        let mut flags: u8 = 0;
        if e.is_dir {
            flags = flags + 1;
        }
        if e.alive {
            flags = flags + 2;
        }
        out.push(flags);
        push_u16(out, e.name.len() as u64);
        append(out, e.name.as_slice());
        proof {
            assert(out@ =~= before + entry_bytes(nodes[i as int]));
            assert(out@ =~= head + entries_bytes(nodes, (i + 1) as nat));
        }
        i = i + 1;
    }
    assert(out@ =~= old(out)@ + index_bytes(nodes, ix@.root));
}

/// A snapshot of every part, each with the folder it indexes.
pub fn encode(parts: &[(&str, &Index)]) -> (out: Vec<u8>)
    ensures
        out@ == snapshot_bytes(part_views(parts@)),
{
    let ghost all = part_views(parts@);
    let mut out: Vec<u8> = vec![0x53, 0x50, 0x4f, 0x4f, 0x52, 0x30, 0x30, 0x32];
    assert(out@ =~= magic());
    push_u32(&mut out, parts.len() as u64);
    let ghost head = out@;
    let mut i: usize = 0;
    assert(out@ =~= head + parts_bytes(all, 0));
    while i < parts.len()
        invariant
            all == part_views(parts@),
            i <= parts.len(),
            out@ == head + parts_bytes(all, i as nat),
        decreases parts.len() - i,
    {
        let ghost before = out@;
        let (root, ix) = parts[i];
        let rb = root.as_bytes();
        push_u16(&mut out, rb.len() as u64);
        append(&mut out, rb);
        write_index(&mut out, ix);
        proof {
            assert(out@ =~= before + part_bytes(all[i as int]));
            assert(out@ =~= head + parts_bytes(all, (i + 1) as nat));
        }
        i = i + 1;
    }
    out
}

/// One arena, and where it ends. Every parent must precede its child, as the
/// index relies on it: a damaged file is refused here rather than crashing the
/// daemon later, on every restart.
pub fn read_index(s: &[u8], at: usize) -> (r: Result<(Index, usize), SnapshotError>)
    requires
        at <= s.len(),
    ensures
        match r {
            Ok((ix, end)) => {
                &&& ix.wf()
                &&& end <= s.len()
                &&& index_at(s@, at as int) == Ok::<_, SnapshotError>(
                    (ix@.nodes, ix@.root, end as int),
                )
                &&& ix@ == (IndexView {
                    nodes: ix@.nodes,
                    root: ix@.root,
                    dir_ino: Map::empty(),
                    indexed: false,
                })
            },
            Err(e) => index_at(s@, at as int) == Err::<(Seq<Node>, u32, int), _>(e),
        },
{
    proof {
        reveal(index_at);
    }
    if s.len() - at < 8 {
        return Err(SnapshotError::Truncated);
    }
    let count = read_u64(s, at);
    if count >= NO_PARENT as u64 {
        return Err(SnapshotError::EntryCount);
    }
    if s.len() - at < 12 {
        return Err(SnapshotError::Truncated);
    }
    let root = read_u32(s, at + 8);
    if !((root as u64) < count || (count == 0 && root == NO_PARENT)) {
        return Err(SnapshotError::RootOutOfRange);
    }
    let start: usize = at + 12;
    let mut entries: Vec<Entry> = Vec::new();
    let mut pos: usize = start;
    let mut i: u64 = 0;
    assert(nodes_of(entries@) =~= Seq::<Node>::empty());
    while i < count
        invariant
            count < NO_PARENT,
            i <= count,
            count == u64_at(s@, at as int),
            at + 12 <= s.len(),
            start == at + 12,
            pos <= s.len(),
            root == u32_at(s@, at + 8),
            root < count || (count == 0 && root == NO_PARENT),
            entries@.len() == i,
            parents_first(nodes_of(entries@)),
            entries_at(s@, start as int, i as nat) == Ok::<_, SnapshotError>(
                (nodes_of(entries@), pos as int),
            ),
        decreases count - i,
    {
        let ghost before = nodes_of(entries@);
        proof {
            reveal(index_at);
        }
        let left: usize = s.len() - pos;
        if left < 4 {
            proof {
                lemma_entries_fail(s@, start as int, (i + 1) as nat, count as nat);
            }
            return Err(SnapshotError::Truncated);
        }
        let parent = read_u32(s, pos);
        if parent != NO_PARENT && parent as u64 >= i {
            proof {
                lemma_entries_fail(s@, start as int, (i + 1) as nat, count as nat);
            }
            return Err(SnapshotError::ParentOrder);
        }
        if left < 7 {
            proof {
                lemma_entries_fail(s@, start as int, (i + 1) as nat, count as nat);
            }
            return Err(SnapshotError::Truncated);
        }
        let flags = s[pos + 4];
        let size: usize = read_u16(s, pos + 5) as usize;
        if left - 7 < size {
            proof {
                lemma_entries_fail(s@, start as int, (i + 1) as nat, count as nat);
            }
            return Err(SnapshotError::Truncated);
        }
        let name = copy_range(s, pos + 7, pos + 7 + size);
        entries.push(
            Entry { parent, name, is_dir: flags % 2 == 1, alive: flags / 2 % 2 == 1 },
        );
        pos = pos + 7 + size;
        i = i + 1;
        proof {
            let last = entries@.last()@;
            assert(nodes_of(entries@) =~= before.push(last));
        }
    }
    proof {
        assert(i == count);
    }
    Ok((Index::from_snapshot(entries, root), pos))
}

/// The views of what was read.
pub open spec fn loaded(parts: Seq<(String, Index)>) -> Seq<PartView> {
    Seq::new(
        parts.len(),
        |i: int|
            PartView {
                root: parts[i].0@,
                nodes: parts[i].1@.nodes,
                root_id: parts[i].1@.root,
            },
    )
}

/// What was read is ready for use: no inode is known, and no trigram lists are
/// built.
pub open spec fn fresh_parts(parts: Seq<(String, Index)>) -> bool {
    forall|i: int|
        0 <= i < parts.len() ==> (#[trigger] parts[i]).1.wf() && !parts[i].1@.indexed
            && parts[i].1@.dir_ino == Map::<u64, u32>::empty()
}

/// Every part in the snapshot, with the folder it indexes.
pub fn decode(s: &[u8]) -> (r: Result<Vec<(String, Index)>, SnapshotError>)
    ensures
        match r {
            Ok(parts) => snapshot_of(s@) == Ok::<_, SnapshotError>(loaded(parts@)) && fresh_parts(
                parts@,
            ),
            Err(e) => snapshot_of(s@) == Err::<Seq<PartView>, _>(e),
        },
{
    if s.len() < 8 {
        return Err(SnapshotError::Truncated);
    }
    let v1: [u8; 8] = [0x45, 0x56, 0x52, 0x59, 0x54, 0x48, 0x44, 0x31];
    let v2: [u8; 8] = [0x53, 0x50, 0x4f, 0x4f, 0x52, 0x30, 0x30, 0x32];
    proof {
        assert(v1@ =~= magic_v1());
        assert(v2@ =~= magic());
        assert(s@.take(8) =~= s@.subrange(0, 8));
    }
    if matches_at(s, v1.as_slice(), 0) {
        let (ix, end) = match read_index(s, 8) {
            Ok(x) => x,
            Err(e) => {
                return Err(e);
            },
        };
        if ix.root as usize >= ix.entries.len() {
            return Err(SnapshotError::RootOutOfRange);
        }
        let root = lossy(ix.entries[ix.root as usize].name.as_slice());
        let mut parts: Vec<(String, Index)> = Vec::new();
        assert(ix@.nodes[ix.root as int] == ix.entries@[ix.root as int]@);
        parts.push((root, ix));
        assert(loaded(parts@) =~= snapshot_of(s@)->Ok_0);
        return Ok(parts);
    }
    if !matches_at(s, v2.as_slice(), 0) {
        return Err(SnapshotError::BadMagic);
    }
    if s.len() < 12 {
        return Err(SnapshotError::Truncated);
    }
    let n = read_u32(s, 8);
    if n > MAX_PARTS {
        return Err(SnapshotError::PartCount);
    }
    let mut parts: Vec<(String, Index)> = Vec::new();
    let mut pos: usize = 12;
    let mut i: u32 = 0;
    assert(loaded(parts@) =~= Seq::<PartView>::empty());
    while i < n
        invariant
            s.len() >= 12,
            s@.take(8) == magic(),
            magic() != magic_v1(),
            n == u32_at(s@, 8),
            n <= MAX_PARTS,
            i <= n,
            pos <= s.len(),
            parts@.len() == i,
            fresh_parts(parts@),
            parts_at(s@, 12, i as nat) == Ok::<_, SnapshotError>((loaded(parts@), pos as int)),
        decreases n - i,
    {
        let ghost before = loaded(parts@);
        let ghost parts0 = parts@;
        let left: usize = s.len() - pos;
        if left < 2 {
            proof {
                lemma_parts_fail(s@, 12, (i + 1) as nat, n as nat);
            }
            return Err(SnapshotError::Truncated);
        }
        let size: usize = read_u16(s, pos) as usize;
        if left - 2 < size {
            proof {
                lemma_parts_fail(s@, 12, (i + 1) as nat, n as nat);
            }
            return Err(SnapshotError::Truncated);
        }
        let root = match text_from_utf8(copy_range(s, pos + 2, pos + 2 + size)) {
            Some(t) => t,
            None => {
                proof {
                    lemma_parts_fail(s@, 12, (i + 1) as nat, n as nat);
                }
                return Err(SnapshotError::RootNotUtf8);
            },
        };
        match read_index(s, pos + 2 + size) {
            Ok((ix, end)) => {
                parts.push((root, ix));
                proof {
                    let last = loaded(parts@).last();
                    assert(loaded(parts@) =~= before.push(last));
                    assert forall|k: int| 0 <= k < parts@.len() implies (
                    #[trigger] parts@[k]).1.wf() && !parts@[k].1@.indexed && parts@[k].1@.dir_ino
                        == Map::<u64, u32>::empty() by {
                        if k < parts0.len() {
                            assert(parts@[k] == parts0[k]);
                        }
                    }
                }
                pos = end;
            },
            Err(e) => {
                proof {
                    lemma_parts_fail(s@, 12, (i + 1) as nat, n as nat);
                }
                return Err(e);
            },
        }
        i = i + 1;
    }
    Ok(parts)
}

// What a snapshot gives back.

/// The arena is one that can be loaded: the lengths fit their fields, and there
/// is a root unless there is nothing.
pub open spec fn loadable(nodes: Seq<Node>, root: u32) -> bool {
    &&& parents_first(nodes)
    &&& nodes.len() < NO_PARENT
    &&& root < nodes.len() || (nodes.len() == 0 && root == NO_PARENT)
    &&& forall|i: int| 0 <= i < nodes.len() ==> (#[trigger] nodes[i]).name.len() < 65536
}

/// The lengths fit their fields, and the arena is one that can be loaded.
pub open spec fn storable(p: PartView) -> bool {
    encode_utf8(p.root).len() < 65536 && loadable(p.nodes, p.root_id)
}

proof fn lemma_entry_back(s: Seq<u8>, p: int, n: Node)
    requires
        n.name.len() < 65536,
        stands_at(s, p, entry_bytes(n)),
    ensures
        0 <= p,
        p + 7 + n.name.len() <= s.len(),
        u32_at(s, p) == n.parent,
        s[p + 4] == entry_flags(n),
        u16_at(s, p + 5) == n.name.len(),
        s.subrange(p + 7, p + 7 + n.name.len()) == n.name,
        entry_bytes(n).len() == 7 + n.name.len(),
{
    broadcast use group_le_len;
    let parent = le4(n.parent as nat);
    let flags = seq![entry_flags(n)];
    let size = le2(n.name.len());
    lemma_stands_split(s, p, parent + flags + size, n.name);
    lemma_stands_split(s, p, parent + flags, size);
    lemma_stands_split(s, p, parent, flags);
    lemma_u32(s, p, n.parent as nat);
    lemma_stands_in(s, p, parent);
    lemma_stands_in(s, p + 4, flags);
    assert(s.subrange(p + 4, p + 5)[0] == s[p + 4]);
    lemma_u16(s, p + 5, n.name.len());
    lemma_stands_in(s, p + 7, n.name);
}

proof fn lemma_entries_back(s: Seq<u8>, at: int, nodes: Seq<Node>, k: nat)
    requires
        k <= nodes.len(),
        parents_first(nodes),
        forall|i: int| 0 <= i < nodes.len() ==> (#[trigger] nodes[i]).name.len() < 65536,
        stands_at(s, at, entries_bytes(nodes, k)),
    ensures
        entries_at(s, at, k) == Ok::<_, SnapshotError>(
            (nodes.take(k as int), at + entries_bytes(nodes, k).len()),
        ),
    decreases k,
{
    if k == 0 {
        assert(nodes.take(0) =~= Seq::<Node>::empty());
    } else {
        let m = (k - 1) as nat;
        let head = entries_bytes(nodes, m);
        let n = nodes[k - 1];
        lemma_stands_split(s, at, head, entry_bytes(n));
        lemma_entries_back(s, at, nodes, m);
        lemma_entry_back(s, at + head.len(), n);
        assert(nodes[k - 1].parent == NO_PARENT || nodes[k - 1].parent < k - 1);
        assert(nodes.take(k as int) =~= nodes.take(m as int).push(n));
    }
}

proof fn lemma_index_back(s: Seq<u8>, at: int, nodes: Seq<Node>, root: u32)
    requires
        loadable(nodes, root),
        stands_at(s, at, index_bytes(nodes, root)),
    ensures
        index_at(s, at) == Ok::<_, SnapshotError>(
            (nodes, root, at + index_bytes(nodes, root).len()),
        ),
{
    reveal(index_at);
    reveal(index_bytes);
    broadcast use group_le_len;
    let count = le8(nodes.len());
    let body = entries_bytes(nodes, nodes.len());
    lemma_stands_split(s, at, count + le4(root as nat), body);
    lemma_stands_split(s, at, count, le4(root as nat));
    lemma_u64(s, at, nodes.len());
    lemma_u32(s, at + 8, root as nat);
    lemma_stands_in(s, at + 8, le4(root as nat));
    lemma_entries_back(s, at + 12, nodes, nodes.len());
    assert(nodes.take(nodes.len() as int) =~= nodes);
}

proof fn lemma_part_back(s: Seq<u8>, p: int, part: PartView)
    requires
        storable(part),
        stands_at(s, p, part_bytes(part)),
    ensures
        part_at(s, p) == Ok::<_, SnapshotError>((part, p + part_bytes(part).len())),
{
    broadcast use group_le_len;
    let name = encode_utf8(part.root);
    let body = index_bytes(part.nodes, part.root_id);
    lemma_stands_split(s, p, le2(name.len()) + name, body);
    lemma_stands_split(s, p, le2(name.len()), name);
    lemma_u16(s, p, name.len());
    lemma_stands_in(s, p + 2, name);
    encode_utf8_valid_utf8(part.root);
    encode_utf8_decode_utf8(part.root);
    lemma_index_back(s, p + 2 + name.len(), part.nodes, part.root_id);
}

proof fn lemma_parts_back(s: Seq<u8>, at: int, parts: Seq<PartView>, k: nat)
    requires
        k <= parts.len(),
        forall|i: int| 0 <= i < parts.len() ==> storable(#[trigger] parts[i]),
        stands_at(s, at, parts_bytes(parts, k)),
    ensures
        parts_at(s, at, k) == Ok::<_, SnapshotError>(
            (parts.take(k as int), at + parts_bytes(parts, k).len()),
        ),
    decreases k,
{
    if k == 0 {
        assert(parts.take(0) =~= Seq::<PartView>::empty());
    } else {
        let m = (k - 1) as nat;
        let head = parts_bytes(parts, m);
        let part = parts[k - 1];
        assert(storable(parts[k - 1]));
        lemma_stands_split(s, at, head, part_bytes(part));
        lemma_parts_back(s, at, parts, m);
        lemma_part_back(s, at + head.len(), part);
        assert(parts.take(k as int) =~= parts.take(m as int).push(part));
    }
}

/// Reading an index gives back what was written, every entry with its name, its
/// parent and its flags, and the root; and it ends where the writing ended,
/// whatever stands before and behind.
pub proof fn index_round_trip(before: Seq<u8>, nodes: Seq<Node>, root: u32, behind: Seq<u8>)
    requires
        loadable(nodes, root),
    ensures
        ({
            let out = before + index_bytes(nodes, root);
            index_at(out + behind, before.len() as int) == Ok::<_, SnapshotError>(
                (nodes, root, out.len() as int),
            )
        }),
{
    let body = index_bytes(nodes, root);
    let s = before + body + behind;
    let at = before.len() as int;
    assert(stands_at(s, at, body)) by {
        reveal(stands_at);
        assert(s.subrange(at, at + body.len()) =~= body);
    }
    lemma_index_back(s, at, nodes, root);
}

/// Reading a snapshot gives back what was written: every part, with its folder
/// and every entry, dead ones included, name bytes and all.
pub proof fn snapshot_round_trip(parts: Seq<PartView>)
    requires
        parts.len() <= MAX_PARTS,
        forall|i: int| 0 <= i < parts.len() ==> storable(#[trigger] parts[i]),
    ensures
        snapshot_of(snapshot_bytes(parts)) == Ok::<_, SnapshotError>(parts),
{
    broadcast use group_le_len;
    let s = snapshot_bytes(parts);
    let body = parts_bytes(parts, parts.len());
    lemma_stands_whole(s);
    lemma_stands_split(s, 0, magic() + le4(parts.len()), body);
    lemma_stands_split(s, 0, magic(), le4(parts.len()));
    lemma_stands_in(s, 0, magic());
    lemma_stands_in(s, 8, le4(parts.len()));
    assert(s.take(8) == s.subrange(0, 8));
    assert(magic()[0] != magic_v1()[0]);
    lemma_u32(s, 8, parts.len());
    lemma_parts_back(s, 12, parts, parts.len());
    assert(parts.take(parts.len() as int) =~= parts);
}

/// Whatever is accepted has every parent before its child and a root that
/// exists: a damaged file is refused.
pub proof fn accepted_snapshots_are_sound(s: Seq<u8>, i: int)
    requires
        snapshot_of(s) is Ok,
        0 <= i < snapshot_of(s)->Ok_0.len(),
    ensures
        parents_first(snapshot_of(s)->Ok_0[i].nodes),
        snapshot_of(s)->Ok_0[i].root_id == NO_PARENT || snapshot_of(s)->Ok_0[i].root_id
            < snapshot_of(s)->Ok_0[i].nodes.len(),
{
    reveal(index_at);
    if s.take(8) == magic_v1() {
        lemma_entries_sound(s, 20, u64_at(s, 8));
    } else {
        lemma_parts_sound(s, 12, u32_at(s, 8), i);
    }
}

proof fn lemma_entries_sound(s: Seq<u8>, at: int, k: nat)
    requires
        k < NO_PARENT,
        entries_at(s, at, k) is Ok,
    ensures
        entries_at(s, at, k)->Ok_0.0.len() == k,
        parents_first(entries_at(s, at, k)->Ok_0.0),
    decreases k,
{
    if k > 0 {
        lemma_entries_sound(s, at, (k - 1) as nat);
        let before = entries_at(s, at, (k - 1) as nat)->Ok_0.0;
        let nodes = entries_at(s, at, k)->Ok_0.0;
        assert forall|i: int| 0 <= i < nodes.len() implies (#[trigger] nodes[i]).parent
            == NO_PARENT || nodes[i].parent < i by {
            if i < before.len() {
                assert(nodes[i] == before[i]);
            }
        }
    }
}

proof fn lemma_parts_sound(s: Seq<u8>, at: int, k: nat, i: int)
    requires
        parts_at(s, at, k) is Ok,
        0 <= i < parts_at(s, at, k)->Ok_0.0.len(),
    ensures
        ({
            let p = parts_at(s, at, k)->Ok_0.0[i];
            parents_first(p.nodes) && (p.root_id == NO_PARENT || p.root_id < p.nodes.len())
        }),
    decreases k,
{
    reveal(index_at);
    if k > 0 {
        let (before, p) = parts_at(s, at, (k - 1) as nat)->Ok_0;
        let parts = parts_at(s, at, k)->Ok_0.0;
        if i < before.len() {
            lemma_parts_sound(s, at, (k - 1) as nat, i);
            assert(parts[i] == before[i]);
        } else {
            let q = p + 2 + u16_at(s, p);
            lemma_entries_sound(s, q + 12, u64_at(s, q));
        }
    }
}

proof fn lemma_entries_cut(s: Seq<u8>, n: int, at: int, k: nat)
    requires
        0 <= at <= n <= s.len(),
        entries_at(s, at, k) is Ok,
    ensures
        at <= entries_at(s, at, k)->Ok_0.1 <= s.len(),
        entries_at(s.take(n), at, k) == (if entries_at(s, at, k)->Ok_0.1 <= n {
            entries_at(s, at, k)
        } else {
            Err(SnapshotError::Truncated)
        }),
    decreases k,
{
    if k > 0 {
        lemma_entries_cut(s, n, at, (k - 1) as nat);
        let p = entries_at(s, at, (k - 1) as nat)->Ok_0.1;
        let end = entries_at(s, at, k)->Ok_0.1;
        if p <= n {
            let c = s.take(n);
            if p + 4 <= n {
                assert(u32_at(c, p) == u32_at(s, p));
            }
            if p + 7 <= n {
                assert(u16_at(c, p + 5) == u16_at(s, p + 5));
                assert(c[p + 4] == s[p + 4]);
            }
            if end <= n {
                assert(c.subrange(p + 7, end) =~= s.subrange(p + 7, end));
            }
        }
    }
}

proof fn lemma_index_cut(s: Seq<u8>, n: int, at: int)
    requires
        0 <= at <= n <= s.len(),
        index_at(s, at) is Ok,
    ensures
        at <= index_at(s, at)->Ok_0.2 <= s.len(),
        index_at(s.take(n), at) == (if index_at(s, at)->Ok_0.2 <= n {
            index_at(s, at)
        } else {
            Err(SnapshotError::Truncated)
        }),
{
    reveal(index_at);
    let c = s.take(n);
    lemma_entries_cut(s, s.len() as int, at + 12, u64_at(s, at));
    if at + 8 <= n {
        assert(u64_at(c, at) == u64_at(s, at));
    }
    if at + 12 <= n {
        assert(u32_at(c, at + 8) == u32_at(s, at + 8));
        lemma_entries_cut(s, n, at + 12, u64_at(s, at));
    }
}

proof fn lemma_part_cut(s: Seq<u8>, n: int, at: int)
    requires
        0 <= at <= n <= s.len(),
        part_at(s, at) is Ok,
    ensures
        at <= part_at(s, at)->Ok_0.1 <= s.len(),
        part_at(s.take(n), at) == (if part_at(s, at)->Ok_0.1 <= n {
            part_at(s, at)
        } else {
            Err(SnapshotError::Truncated)
        }),
{
    let c = s.take(n);
    let q = at + 2 + u16_at(s, at);
    lemma_index_cut(s, s.len() as int, q);
    if at + 2 <= n {
        assert(u16_at(c, at) == u16_at(s, at));
        if q <= n {
            assert(c.subrange(at + 2, q) =~= s.subrange(at + 2, q));
            lemma_index_cut(s, n, q);
        }
    }
}

proof fn lemma_parts_cut(s: Seq<u8>, n: int, at: int, k: nat)
    requires
        0 <= at <= n <= s.len(),
        parts_at(s, at, k) is Ok,
    ensures
        at <= parts_at(s, at, k)->Ok_0.1 <= s.len(),
        parts_at(s.take(n), at, k) == (if parts_at(s, at, k)->Ok_0.1 <= n {
            parts_at(s, at, k)
        } else {
            Err(SnapshotError::Truncated)
        }),
    decreases k,
{
    if k > 0 {
        lemma_parts_cut(s, n, at, (k - 1) as nat);
        let p = parts_at(s, at, (k - 1) as nat)->Ok_0.1;
        lemma_part_cut(s, s.len() as int, p);
        if p <= n {
            lemma_part_cut(s, n, p);
        }
    }
}

/// However a snapshot is cut off, it is not taken for a whole one.
pub proof fn cut_snapshots_are_refused(parts: Seq<PartView>, n: int)
    requires
        parts.len() <= MAX_PARTS,
        forall|i: int| 0 <= i < parts.len() ==> storable(#[trigger] parts[i]),
        0 <= n < snapshot_bytes(parts).len(),
    ensures
        snapshot_of(snapshot_bytes(parts).take(n)) == Err::<Seq<PartView>, _>(
            SnapshotError::Truncated,
        ),
{
    broadcast use group_le_len;
    let s = snapshot_bytes(parts);
    let c = s.take(n);
    let body = parts_bytes(parts, parts.len());
    lemma_stands_whole(s);
    lemma_stands_split(s, 0, magic() + le4(parts.len()), body);
    lemma_stands_split(s, 0, magic(), le4(parts.len()));
    lemma_stands_in(s, 0, magic());
    lemma_stands_in(s, 8, le4(parts.len()));
    assert(s.take(8) == s.subrange(0, 8));
    assert(magic()[0] != magic_v1()[0]);
    lemma_u32(s, 8, parts.len());
    lemma_parts_back(s, 12, parts, parts.len());
    if n >= 8 {
        assert(c.take(8) =~= s.take(8));
        if n >= 12 {
            assert(u32_at(c, 8) == u32_at(s, 8));
            lemma_parts_cut(s, n, 12, parts.len());
        }
    }
}

// The format, byte by byte.

/// An entry is written as its parent, its flags, the length of its name and the
/// name. Of the flags the lowest says that it is a folder, the next that it is
/// alive.
pub proof fn entries_are_written_field_by_field(n: Node)
    requires
        n.name.len() < 0x1_0000,
    ensures
        ({
            let s = entry_bytes(n);
            &&& s.len() == 7 + n.name.len()
            &&& u32_at(s, 0) == n.parent
            &&& s[4] % 2 == 1 <==> n.is_dir
            &&& s[4] / 2 % 2 == 1 <==> n.alive
            &&& s[4] < 4
            &&& u16_at(s, 5) == n.name.len()
            &&& s.skip(7) == n.name
        }),
{
    broadcast use group_le_len;

    let s = entry_bytes(n);
    let head = le4(n.parent as nat) + seq![entry_flags(n)];
    lemma_stands_whole(s);
    lemma_stands_split(s, 0, head + le2(n.name.len()), n.name);
    lemma_stands_split(s, 0, head, le2(n.name.len()));
    lemma_stands_split(s, 0, le4(n.parent as nat), seq![entry_flags(n)]);
    lemma_u32(s, 0, n.parent as nat);
    lemma_u16(s, 5, n.name.len());
    assert(s[4] == entry_flags(n));
    assert(s.skip(7) =~= n.name);
}

/// An index is written as the number of its entries, its root and the entries,
/// one behind the other.
pub proof fn indexes_are_written_entry_by_entry(nodes: Seq<Node>, n: Node, root: u32)
    requires
        nodes.len() < 0xffff_ffff,
    ensures
        u64_at(index_bytes(nodes, root), 0) == nodes.len(),
        u32_at(index_bytes(nodes, root), 8) == root,
        index_bytes(nodes, root).len() >= 12,
        index_bytes(nodes.push(n), root).skip(12) == index_bytes(nodes, root).skip(12)
            + entry_bytes(n),
        index_bytes(Seq::<Node>::empty(), root).len() == 12,
{
    broadcast use group_le_len;

    reveal(index_bytes);
    let more = nodes.push(n);
    lemma_entries_fewer(nodes, n, nodes.len());
    let (s, t) = (index_bytes(nodes, root), index_bytes(more, root));
    let body = entries_bytes(nodes, nodes.len());
    lemma_stands_whole(s);
    lemma_stands_split(s, 0, le8(nodes.len()) + le4(root as nat), body);
    lemma_stands_split(s, 0, le8(nodes.len()), le4(root as nat));
    lemma_u64(s, 0, nodes.len());
    lemma_u32(s, 8, root as nat);
    assert(s.skip(12) =~= body);
    assert(t.skip(12) =~= body + entry_bytes(n));
}

proof fn lemma_entries_fewer(nodes: Seq<Node>, n: Node, k: nat)
    requires
        k <= nodes.len(),
    ensures
        entries_bytes(nodes.push(n), k) == entries_bytes(nodes, k),
    decreases k,
{
    if k > 0 {
        lemma_entries_fewer(nodes, n, (k - 1) as nat);
    }
}

/// A snapshot starts with `SPOOR002` and the number of its parts; a part is its
/// folder, with the length of that before it, and its index.
pub proof fn snapshots_are_written_part_by_part(parts: Seq<PartView>, p: PartView)
    requires
        parts.len() < 0xffff_ffff,
        encode_utf8(p.root).len() < 0x1_0000,
    ensures
        snapshot_bytes(parts).len() >= 12,
        snapshot_bytes(parts).take(8) == seq![0x53u8, 0x50, 0x4f, 0x4f, 0x52, 0x30, 0x30, 0x32],
        u32_at(snapshot_bytes(parts), 8) == parts.len(),
        snapshot_bytes(parts.push(p)).skip(12) == snapshot_bytes(parts).skip(12) + part_bytes(p),
        snapshot_bytes(Seq::<PartView>::empty()).len() == 12,
        u16_at(part_bytes(p), 0) == encode_utf8(p.root).len(),
        part_bytes(p).skip(2) == encode_utf8(p.root) + index_bytes(p.nodes, p.root_id),
{
    broadcast use group_le_len;

    let more = parts.push(p);
    lemma_parts_fewer(parts, p, parts.len());
    let (s, t) = (snapshot_bytes(parts), snapshot_bytes(more));
    let body = parts_bytes(parts, parts.len());
    lemma_stands_whole(s);
    lemma_stands_split(s, 0, magic() + le4(parts.len()), body);
    lemma_stands_split(s, 0, magic(), le4(parts.len()));
    lemma_stands_in(s, 0, magic());
    lemma_u32(s, 8, parts.len());
    assert(s.take(8) =~= s.subrange(0, 8));
    assert(s.skip(12) =~= body);
    assert(t.skip(12) =~= body + part_bytes(p));
    let (name, index) = (encode_utf8(p.root), index_bytes(p.nodes, p.root_id));
    let one = part_bytes(p);
    lemma_stands_whole(one);
    lemma_stands_split(one, 0, le2(name.len()) + name, index);
    lemma_stands_split(one, 0, le2(name.len()), name);
    lemma_u16(one, 0, name.len());
    assert(one.skip(2) =~= name + index);
}

proof fn lemma_parts_fewer(parts: Seq<PartView>, p: PartView, k: nat)
    requires
        k <= parts.len(),
    ensures
        parts_bytes(parts.push(p), k) == parts_bytes(parts, k),
    decreases k,
{
    if k > 0 {
        lemma_parts_fewer(parts, p, (k - 1) as nat);
    }
}

/// Every snapshot of up to 4096 parts is read back as long as its entries follow
/// their parents and its names fit their lengths.
pub proof fn sound_snapshots_are_read_back(parts: Seq<PartView>)
    requires
        parts.len() <= 4096,
        forall|i: int|
            #![trigger parts[i]]
            0 <= i < parts.len() ==> encode_utf8(parts[i].root).len() < 0x1_0000
                && parts[i].nodes.len() < 0xffff_ffff && parts[i].root_id < parts[i].nodes.len(),
        forall|i: int, k: int|
            0 <= i < parts.len() && 0 <= k < parts[i].nodes.len() ==> (
            #[trigger] parts[i].nodes[k]).name.len() < 0x1_0000,
        forall|i: int, k: int|
            0 <= i < parts.len() && 0 <= k < parts[i].nodes.len() ==> (
            #[trigger] parts[i].nodes[k]).parent == 0xffff_ffff || parts[i].nodes[k].parent < k,
    ensures
        snapshot_of(snapshot_bytes(parts)) == Ok::<_, SnapshotError>(parts),
{
    assert forall|i: int| 0 <= i < parts.len() implies storable(#[trigger] parts[i]) by {
        let nodes = parts[i].nodes;
        assert forall|k: int| 0 <= k < nodes.len() implies (#[trigger] nodes[k]).parent == NO_PARENT
            || nodes[k].parent < k by {
            assert(parts[i].nodes[k] == nodes[k]);
        }
        assert forall|k: int| 0 <= k < nodes.len() implies (#[trigger] nodes[k]).name.len()
            < 65536 by {
            assert(parts[i].nodes[k] == nodes[k]);
        }
    }
    snapshot_round_trip(parts);
}

/// A file that starts otherwise is refused, and so is one of more than 4096
/// parts and one that is shorter than its start.
pub proof fn other_files_are_refused(s: Seq<u8>)
    ensures
        s.len() < 8 ==> snapshot_of(s) == Err::<Seq<PartView>, _>(SnapshotError::Truncated),
        s.len() >= 8 && s.take(8) != seq![0x53u8, 0x50, 0x4f, 0x4f, 0x52, 0x30, 0x30, 0x32]
            && s.take(8) != seq![0x45u8, 0x56, 0x52, 0x59, 0x54, 0x48, 0x44, 0x31]
            ==> snapshot_of(s) == Err::<Seq<PartView>, _>(SnapshotError::BadMagic),
        s.len() >= 12 && s.take(8) == seq![0x53u8, 0x50, 0x4f, 0x4f, 0x52, 0x30, 0x30, 0x32]
            && u32_at(s, 8) > 4096 ==> snapshot_of(s) == Err::<Seq<PartView>, _>(
            SnapshotError::PartCount,
        ),
{
    assert(magic()[0] != magic_v1()[0]);
}

/// A file of the first format holds one index, whose folder is the name of its
/// root.
pub proof fn first_snapshots_are_still_read(nodes: Seq<Node>, root: u32, behind: Seq<u8>)
    requires
        loadable(nodes, root),
        root < nodes.len(),
    ensures
        snapshot_of(
            seq![0x45u8, 0x56, 0x52, 0x59, 0x54, 0x48, 0x44, 0x31] + index_bytes(nodes, root)
                + behind,
        ) == Ok::<_, SnapshotError>(
            seq![PartView { root: lossy_text(nodes[root as int].name), nodes, root_id: root }],
        ),
{
    let mark = seq![0x45u8, 0x56, 0x52, 0x59, 0x54, 0x48, 0x44, 0x31];
    let s = mark + index_bytes(nodes, root) + behind;
    index_round_trip(mark, nodes, root, behind);
    assert(s.take(8) =~= mark);
    assert(magic_v1() =~= mark);
}

/// An entry that does not follow its parent is refused, and a root that there is
/// not.
pub proof fn broken_indexes_are_refused(s: Seq<u8>, at: int)
    requires
        0 <= at,
        index_at(s, at) is Ok,
    ensures
        ({
            let (nodes, root, end) = index_at(s, at)->Ok_0;
            &&& nodes.len() == u64_at(s, at)
            &&& root == u32_at(s, at + 8)
            &&& root < nodes.len() || root == 0xffff_ffff
            &&& forall|i: int|
                0 <= i < nodes.len() ==> (#[trigger] nodes[i]).parent == 0xffff_ffff
                    || nodes[i].parent < i
        }),
{
    reveal(index_at);
    lemma_entries_sound(s, at + 12, u64_at(s, at));
}

/// A refusal says what is wrong: more entries than can be, a root that there is
/// not, an entry before its parent, or an end that came too soon.
pub proof fn refusals_say_what_is_wrong(s: Seq<u8>, at: int)
    requires
        0 <= at <= s.len(),
    ensures
        s.len() < at + 8 ==> index_at(s, at) == Err::<(Seq<Node>, u32, int), _>(
            SnapshotError::Truncated,
        ),
        s.len() >= at + 8 && u64_at(s, at) >= 0xffff_ffff ==> index_at(s, at) == Err::<
            (Seq<Node>, u32, int),
            _,
        >(SnapshotError::EntryCount),
        s.len() >= at + 12 && 0 < u64_at(s, at) < 0xffff_ffff && u32_at(s, at + 8) >= u64_at(s, at)
            ==> index_at(s, at) == Err::<(Seq<Node>, u32, int), _>(SnapshotError::RootOutOfRange),
        s.len() >= at + 16 && u64_at(s, at) == 1 && u32_at(s, at + 8) == 0 && u32_at(s, at + 12)
            != 0xffff_ffff ==> index_at(s, at) == Err::<(Seq<Node>, u32, int), _>(
            SnapshotError::ParentOrder,
        ),
{
    reveal(index_at);
    reveal_with_fuel(entries_at, 2);
}

/// No two faults are told in the same words.
pub proof fn faults_are_told_apart(a: SnapshotError, b: SnapshotError)
    requires
        a != b,
    ensures
        error_text(a) != error_text(b),
        error_text(a).len() > 0,
{
    reveal_strlit("failed to fill whole buffer");
    reveal_strlit("bad snapshot magic");
    reveal_strlit("implausible part count");
    reveal_strlit("root path is not UTF-8");
    reveal_strlit("implausible entry count");
    reveal_strlit("root out of range");
    reveal_strlit("entry precedes its parent");
    assert(error_text(SnapshotError::Truncated).len() == 27);
    assert(error_text(SnapshotError::BadMagic).len() == 18);
    assert(error_text(SnapshotError::PartCount).len() == 22);
    assert(error_text(SnapshotError::RootNotUtf8).len() == 22);
    assert(error_text(SnapshotError::EntryCount).len() == 23);
    assert(error_text(SnapshotError::RootOutOfRange).len() == 17);
    assert(error_text(SnapshotError::ParentOrder).len() == 25);
    assert(error_text(SnapshotError::PartCount)[0] == 'i');
    assert(error_text(SnapshotError::RootNotUtf8)[0] == 'r');
}

} // verus!
