//! What a whole-filesystem fanotify watcher reports.
//!
//! One filesystem mark covers an entire mount, including directories that do
//! not exist yet. The kernel hands over a buffer of variable-length records;
//! here they are taken apart.

use vstd::prelude::*;
use vstd::endian::endianness;
use crate::bytes::{copy_range, views};
use crate::place::{beneath, under};
use crate::split::{pieces, pieces_part_at_separators, runs_are_not_parted, split_bytes};
use crate::wire::{read_u16, read_u32, read_u64, u16_at, u32_at, u64_at};

verus! {

pub const FAN_CLOEXEC: u32 = 0x0000_0001;

pub const FAN_CLASS_NOTIF: u32 = 0x0000_0000;

pub const FAN_UNLIMITED_QUEUE: u32 = 0x0000_0010;

pub const FAN_UNLIMITED_MARKS: u32 = 0x0000_0020;

pub const FAN_REPORT_DIR_FID: u32 = 0x0000_0400;

pub const FAN_REPORT_NAME: u32 = 0x0000_0800;

pub const FAN_REPORT_DFID_NAME: u32 = 0x0000_0c00;

pub const FAN_MARK_ADD: u32 = 0x0000_0001;

pub const FAN_MARK_FILESYSTEM: u32 = 0x0000_0100;

pub const FAN_CREATE: u64 = 0x0000_0100;

pub const FAN_DELETE: u64 = 0x0000_0200;

pub const FAN_MOVED_FROM: u64 = 0x0000_0040;

pub const FAN_MOVED_TO: u64 = 0x0000_0080;

pub const FAN_ONDIR: u64 = 0x4000_0000;

pub const FAN_Q_OVERFLOW: u64 = 0x0000_4000;

/// The kind of info record that names a directory and an entry in it.
pub const FAN_EVENT_INFO_TYPE_DFID_NAME: u8 = 2;

/// Kernel limit on a file handle's payload.
pub const MAX_HANDLE_SZ: u32 = 128;

/// Size of the fixed part of an event.
pub const META: usize = 24;

/// Size of an info record's header.
pub const HDR: usize = 4;

/// One change on the filesystem.
#[derive(Debug, Clone)]
pub struct Event {
    pub mask: u64,
    /// Inode of the directory containing the change.
    pub parent_ino: u64,
    /// Full path of that directory, resolved via the file handle.
    pub parent_path: Option<Vec<u8>>,
    /// Raw bytes, exactly as the kernel reported them.
    pub name: Vec<u8>,
}

/// Any of the bits of `bits` is set.
pub open spec fn has_bits(mask: u64, bits: u64) -> bool {
    mask & bits != 0
}

impl Event {
    /// It concerns a folder.
    pub fn is_dir(&self) -> (r: bool)
        ensures
            r == has_bits(self.mask, FAN_ONDIR),
    {
        self.mask & FAN_ONDIR != 0
    }

    /// Something came to be: created, or moved here.
    pub fn is_create(&self) -> (r: bool)
        ensures
            r == (has_bits(self.mask, FAN_CREATE) || has_bits(self.mask, FAN_MOVED_TO)),
    {
        self.mask & FAN_CREATE != 0 || self.mask & FAN_MOVED_TO != 0
    }

    /// Something went away: deleted, or moved from here.
    pub fn is_delete(&self) -> (r: bool)
        ensures
            r == (has_bits(self.mask, FAN_DELETE) || has_bits(self.mask, FAN_MOVED_FROM)),
    {
        self.mask & FAN_DELETE != 0 || self.mask & FAN_MOVED_FROM != 0
    }

    /// The kernel lost events.
    pub fn is_overflow(&self) -> (r: bool)
        ensures
            r == has_bits(self.mask, FAN_Q_OVERFLOW),
    {
        self.mask & FAN_Q_OVERFLOW != 0
    }
}

// Numbers in the machine's own byte order.

/// The bytes of `s[at..at + n]`, turned around.
pub open spec fn turned(s: Seq<u8>, at: int, n: int) -> Seq<u8> {
    Seq::new(n as nat, |i: int| s[at + n - 1 - i])
}

/// The number in two bytes at `at`.
pub open spec fn num16(s: Seq<u8>, at: int, little: bool) -> nat {
    if little {
        u16_at(s, at)
    } else {
        u16_at(turned(s, at, 2), 0)
    }
}

/// The number in four bytes at `at`.
pub open spec fn num32(s: Seq<u8>, at: int, little: bool) -> nat {
    if little {
        u32_at(s, at)
    } else {
        u32_at(turned(s, at, 4), 0)
    }
}

/// The number in eight bytes at `at`.
pub open spec fn num64(s: Seq<u8>, at: int, little: bool) -> nat {
    if little {
        u64_at(s, at)
    } else {
        u64_at(turned(s, at, 8), 0)
    }
}

fn turn(s: &[u8], at: usize, n: usize) -> (out: Vec<u8>)
    requires
        at + n <= s.len(),
    ensures
        out@ == turned(s@, at as int, n as int),
{
    let mut out: Vec<u8> = Vec::new();
    let mut i: usize = 0;
    while i < n
        invariant
            i <= n,
            at + n <= s.len(),
            out@.len() == i,
            forall|k: int| 0 <= k < i ==> #[trigger] out@[k] == s@[at + n - 1 - k],
        decreases n - i,
    {
        out.push(s[at + n - 1 - i]);
        i = i + 1;
    }
    assert(out@ =~= turned(s@, at as int, n as int));
    out
}

fn get16(s: &[u8], at: usize, little: bool) -> (n: u16)
    requires
        at + 2 <= s.len(),
    ensures
        n == num16(s@, at as int, little),
{
    if little {
        read_u16(s, at)
    } else {
        read_u16(turn(s, at, 2).as_slice(), 0)
    }
}

fn get32(s: &[u8], at: usize, little: bool) -> (n: u32)
    requires
        at + 4 <= s.len(),
    ensures
        n == num32(s@, at as int, little),
{
    if little {
        read_u32(s, at)
    } else {
        read_u32(turn(s, at, 4).as_slice(), 0)
    }
}

fn get64(s: &[u8], at: usize, little: bool) -> (n: u64)
    requires
        at + 8 <= s.len(),
    ensures
        n == num64(s@, at as int, little),
{
    if little {
        read_u64(s, at)
    } else {
        read_u64(turn(s, at, 8).as_slice(), 0)
    }
}

/// Least significant byte first is the order of the machine that runs this.
pub open spec fn native_little() -> bool {
    endianness() is Little
}

/// `u16::from_ne_bytes`: the two bytes in the order of the machine that runs
/// this.
#[verifier::external_body]
fn native_u16(bytes: [u8; 2]) -> (n: u16)
    ensures
        n == (if native_little() {
            bytes@[0] + 256 * bytes@[1]
        } else {
            256 * bytes@[0] + bytes@[1]
        }),
{
    u16::from_ne_bytes(bytes)
}

/// Does this machine keep the least significant byte first?
fn little_endian() -> (r: bool)
    ensures
        r == native_little(),
{
    native_u16([1, 0]) == 1
}

// Events.

/// A file handle's header; its payload follows it in the buffer.
#[derive(Clone, Copy, Debug, PartialEq, Eq, Structural)]
pub struct FileHandle {
    pub handle_bytes: u32,
    pub handle_type: i32,
}

/// The header at `at`.
pub open spec fn handle_at(buf: Seq<u8>, at: int, little: bool) -> FileHandle {
    FileHandle {
        handle_bytes: num32(buf, at, little) as u32,
        handle_type: (num32(buf, at + 4, little) as u32) as i32,
    }
}

/// An event before its directory is looked up: the handle of the directory and
/// where it stands, except where events were lost.
pub struct RawEvent {
    pub mask: u64,
    pub handle: Option<(FileHandle, int)>,
    pub name: Seq<u8>,
}

/// Where a name that starts at `from` is terminated; `end` if it is not.
pub open spec fn name_end(buf: Seq<u8>, from: int, end: int) -> int
    decreases end - from,
{
    if from >= end || buf[from] == 0 {
        from
    } else {
        name_end(buf, from + 1, end)
    }
}

/// The event in the info record `start..end`: header (4), fsid (8), file
/// handle (8 and its payload), then a NUL-terminated name. None for anything
/// that does not fit, and for `.` and an empty name.
pub open spec fn record_at(buf: Seq<u8>, mask: u64, start: int, end: int, little: bool) -> Option<
    RawEvent,
> {
    let at = start + 12;
    let fh = handle_at(buf, at, little);
    let from = at + 8 + fh.handle_bytes;
    let stop = name_end(buf, from, end);
    let name = buf.subrange(from, stop);
    if at + 8 > end || fh.handle_bytes > MAX_HANDLE_SZ || from >= end || stop >= end || name.len()
        == 0 || name == seq![0x2eu8] {
        None
    } else {
        Some(RawEvent { mask, handle: Some((fh, at)), name })
    }
}

/// The events in the info records from `at` to `end`.
pub open spec fn records_from(buf: Seq<u8>, mask: u64, at: int, end: int, little: bool) -> Seq<
    RawEvent,
>
    decreases end - at,
{
    let len = num16(buf, at + 2, little);
    if at + HDR > end || len < HDR || at + len > end {
        seq![]
    } else {
        let rest = records_from(buf, mask, at + len, end, little);
        if buf[at] == FAN_EVENT_INFO_TYPE_DFID_NAME {
            match record_at(buf, mask, at, at + len, little) {
                Some(e) => seq![e] + rest,
                None => rest,
            }
        } else {
            rest
        }
    }
}

/// Where the info records of the event at `off` start.
pub open spec fn info_start(buf: Seq<u8>, off: int, little: bool) -> int {
    let len = num16(buf, off + 6, little);
    off + if len > META {
        len as int
    } else {
        META as int
    }
}

/// The events from `off` on. The first one that does not fit ends them.
pub open spec fn events_from(buf: Seq<u8>, off: int, little: bool) -> Seq<RawEvent>
    decreases buf.len() - off,
{
    let len = num32(buf, off, little);
    let mask = num64(buf, off + 8, little) as u64;
    if off + META > buf.len() || len < META || off + len > buf.len() {
        seq![]
    } else {
        let rest = events_from(buf, off + len, little);
        if has_bits(mask, FAN_Q_OVERFLOW) {
            seq![RawEvent { mask, handle: None, name: seq![] }] + rest
        } else {
            records_from(buf, mask, info_start(buf, off, little), off + len, little) + rest
        }
    }
}

/// The directory is known: what the resolver said of the handle.
pub open spec fn resolved_by<R: Fn(&FileHandle, usize) -> (u64, Option<Vec<u8>>)>(
    e: Event,
    raw: RawEvent,
    resolve: R,
) -> bool {
    &&& e.mask == raw.mask
    &&& e.name@ == raw.name
    &&& match raw.handle {
        None => e.parent_ino == 0 && e.parent_path is None,
        Some((fh, at)) => call_ensures(
            resolve,
            (&fh, at as usize),
            (e.parent_ino, e.parent_path),
        ),
    }
}

/// Each event, with its directory known.
pub open spec fn all_resolved<R: Fn(&FileHandle, usize) -> (u64, Option<Vec<u8>>)>(
    out: Seq<Event>,
    raw: Seq<RawEvent>,
    resolve: R,
) -> bool {
    out.len() == raw.len() && forall|i: int|
        0 <= i < out.len() ==> resolved_by(#[trigger] out[i], raw[i], resolve)
}

/// The resolver takes every handle whose payload lies in the buffer.
pub open spec fn takes_handles<R: Fn(&FileHandle, usize) -> (u64, Option<Vec<u8>>)>(
    resolve: R,
    n: nat,
) -> bool {
    forall|fh: FileHandle, at: usize|
        fh.handle_bytes <= MAX_HANDLE_SZ && at + 8 + fh.handle_bytes <= n
            ==> #[trigger] call_requires(resolve, (&fh, at))
}

proof fn lemma_resolved_push<R: Fn(&FileHandle, usize) -> (u64, Option<Vec<u8>>)>(
    out: Seq<Event>,
    raw: Seq<RawEvent>,
    e: Event,
    r: RawEvent,
    resolve: R,
)
    requires
        all_resolved(out, raw, resolve),
        resolved_by(e, r, resolve),
    ensures
        all_resolved(out.push(e), raw.push(r), resolve),
{
}

/// Decode one DFID_NAME info record occupying `buf[start..end]`. Returns None
/// for anything that does not fit.
fn decode_dfid_name<R: Fn(&FileHandle, usize) -> (u64, Option<Vec<u8>>)>(
    buf: &[u8],
    mask: u64,
    start: usize,
    end: usize,
    little: bool,
    resolve: &R,
) -> (r: Option<Event>)
    requires
        start <= end <= buf.len(),
        takes_handles(*resolve, buf@.len()),
    ensures
        match r {
            Some(e) => record_at(buf@, mask, start as int, end as int, little) is Some
                && resolved_by(
                e,
                record_at(buf@, mask, start as int, end as int, little)->Some_0,
                *resolve,
            ),
            None => record_at(buf@, mask, start as int, end as int, little) is None,
        },
{
    if end - start < 20 {
        return None;
    }
    let at: usize = start + 12;
    let handle_bytes = get32(buf, at, little);
    let handle_type: i32 = get32(buf, at + 4, little) as i32;
    let fh = FileHandle { handle_bytes, handle_type };
    assert(fh == handle_at(buf@, at as int, little));
    if handle_bytes > MAX_HANDLE_SZ || handle_bytes as usize >= end - (at + 8) {
        return None;
    }
    let from: usize = at + 8 + handle_bytes as usize;
    let mut stop: usize = from;
    while stop < end && buf[stop] != 0
        invariant
            from <= stop <= end <= buf.len(),
            name_end(buf@, stop as int, end as int) == name_end(buf@, from as int, end as int),
        decreases end - stop,
    {
        stop = stop + 1;
    }
    if stop == end {
        return None;
    }
    let name = copy_range(buf, from, stop);
    if name.len() == 0 || (name.len() == 1 && name[0] == 0x2e) {
        proof {
            if name@.len() == 1 {
                assert(name@ =~= seq![0x2eu8]);
            }
        }
        return None;
    }
    proof {
        if name@ == seq![0x2eu8] {
            assert(name@[0] == 0x2e);
        }
    }
    let (parent_ino, parent_path) = resolve(&fh, at);
    Some(Event { mask, parent_ino, parent_path, name })
}

/// The events in the info records from `at` to `end`, behind `out`.
fn push_records<R: Fn(&FileHandle, usize) -> (u64, Option<Vec<u8>>)>(
    out: &mut Vec<Event>,
    buf: &[u8],
    mask: u64,
    at: usize,
    end: usize,
    little: bool,
    resolve: &R,
    Ghost(before): Ghost<Seq<RawEvent>>,
)
    requires
        end <= buf.len(),
        takes_handles(*resolve, buf@.len()),
        all_resolved(old(out)@, before, *resolve),
    ensures
        all_resolved(
            final(out)@,
            before + records_from(buf@, mask, at as int, end as int, little),
            *resolve,
        ),
{
    let mut i: usize = at;
    let ghost goal = before + records_from(buf@, mask, at as int, end as int, little);
    let ghost mut raw = before;
    let mut open = true;
    while open && i <= end && end - i >= HDR
        invariant
            end <= buf.len(),
            open ==> raw + records_from(buf@, mask, i as int, end as int, little) == goal,
            !open ==> raw == goal,
            takes_handles(*resolve, buf@.len()),
            all_resolved(out@, raw, *resolve),
        decreases open as int, end - i,
    {
        let len = get16(buf, i + 2, little) as usize;
        if len < HDR || len > end - i {
            open = false;
            assert(raw + Seq::<RawEvent>::empty() =~= raw);
        } else {
            let ghost rest = records_from(buf@, mask, i + len, end as int, little);
            if buf[i] == FAN_EVENT_INFO_TYPE_DFID_NAME {
                match decode_dfid_name(buf, mask, i, i + len, little, resolve) {
                    Some(e) => {
                        proof {
                            let r = record_at(
                                buf@,
                                mask,
                                i as int,
                                i + len,
                                little,
                            )->Some_0;
                            lemma_resolved_push(out@, raw, e, r, *resolve);
                            assert(raw.push(r) + rest =~= raw + (seq![r] + rest));
                            raw = raw.push(r);
                        }
                        out.push(e);
                    },
                    None => {},
                }
            }
            i = i + len;
        }
    }
    assert(raw + Seq::<RawEvent>::empty() =~= raw);
}

/// Decode a buffer of fanotify records whose numbers stand in the given byte
/// order.
///
/// The records are variable-length, and every offset is checked against its
/// record's end before it is read. This runs as root; a malformed record is
/// skipped, never read past. `resolve` turns a directory file handle (header
/// copy, offset of the header in `buf`) into an inode and optional path.
pub fn parse_events_as<R: Fn(&FileHandle, usize) -> (u64, Option<Vec<u8>>)>(
    buf: &[u8],
    little: bool,
    resolve: &R,
) -> (out: Vec<Event>)
    requires
        takes_handles(*resolve, buf@.len()),
    ensures
        all_resolved(out@, events_from(buf@, 0, little), *resolve),
{
    let mut out: Vec<Event> = Vec::new();
    let mut off: usize = 0;
    let ghost goal = events_from(buf@, 0, little);
    let ghost mut raw: Seq<RawEvent> = seq![];
    let mut open = true;
    assert(raw + goal =~= goal);
    while open && buf.len() - off >= META
        invariant
            off <= buf.len(),
            open ==> raw + events_from(buf@, off as int, little) == goal,
            !open ==> raw == goal,
            takes_handles(*resolve, buf@.len()),
            all_resolved(out@, raw, *resolve),
        decreases open as int, buf.len() - off,
    {
        let len = get32(buf, off, little) as usize;
        if len < META || len > buf.len() - off {
            open = false;
            assert(raw + Seq::<RawEvent>::empty() =~= raw);
        } else {
            let end: usize = off + len;
            let mask = get64(buf, off + 8, little);
            let ghost rest = events_from(buf@, end as int, little);
            if mask & FAN_Q_OVERFLOW != 0 {
                let e = Event { mask, parent_ino: 0, parent_path: None, name: Vec::new() };
                proof {
                    let r = RawEvent { mask, handle: None, name: seq![] };
                    assert(e.name@ =~= r.name);
                    lemma_resolved_push(out@, raw, e, r, *resolve);
                    assert(raw.push(r) + rest =~= raw + (seq![r] + rest));
                    raw = raw.push(r);
                }
                out.push(e);
            } else {
                let fixed = get16(buf, off + 6, little) as usize;
                let ghost more = records_from(
                    buf@,
                    mask,
                    info_start(buf@, off as int, little),
                    end as int,
                    little,
                );
                if fixed <= len {
                    let at: usize = off + if fixed > META {
                        fixed
                    } else {
                        META
                    };
                    push_records(&mut out, buf, mask, at, end, little, resolve, Ghost(raw));
                } else {
                    assert(more =~= Seq::<RawEvent>::empty());
                    assert(raw + more =~= raw);
                }
                proof {
                    assert((raw + more) + rest =~= raw + (more + rest));
                    raw = raw + more;
                }
            }
            off = end;
        }
    }
    assert(raw + Seq::<RawEvent>::empty() =~= raw);
    out
}

/// Decode a buffer of fanotify records as the kernel of this machine writes
/// them.
pub fn parse_events<R: Fn(&FileHandle, usize) -> (u64, Option<Vec<u8>>)>(
    buf: &[u8],
    resolve: &R,
) -> (out: Vec<Event>)
    requires
        takes_handles(*resolve, buf@.len()),
    ensures
        all_resolved(out@, events_from(buf@, 0, native_little()), *resolve),
{
    parse_events_as(buf, little_endian(), resolve)
}

// Handles that carry the inode in the clear.

/// The inode in a handle at `at`, for the generic ext2/3/4 and xfs encodings;
/// None for others, which only the kernel can resolve.
pub open spec fn clear_inode(fh: FileHandle, buf: Seq<u8>, at: int, little: bool) -> Option<u64> {
    if (fh.handle_type == 1 || fh.handle_type == 2) && fh.handle_bytes >= 8 {
        Some(num32(buf, at + 8, little) as u64)
    } else if (fh.handle_type == 0x81 || fh.handle_type == 0x82) && fh.handle_bytes >= 12 {
        Some(num64(buf, at + 8, little) as u64)
    } else {
        None
    }
}

/// The inode in a handle whose numbers stand in the given byte order.
pub fn inode_of_handle_as(fh: &FileHandle, buf: &[u8], at: usize, little: bool) -> (r: Option<
    u64,
>)
    requires
        at + 8 + fh.handle_bytes <= buf.len(),
    ensures
        r == clear_inode(*fh, buf@, at as int, little),
{
    if (fh.handle_type == 1 || fh.handle_type == 2) && fh.handle_bytes >= 8 {
        Some(get32(buf, at + 8, little) as u64)
    } else if (fh.handle_type == 0x81 || fh.handle_type == 0x82) && fh.handle_bytes >= 12 {
        Some(get64(buf, at + 8, little))
    } else {
        None
    }
}

/// The inode in a handle as the kernel of this machine writes it.
pub fn inode_of_handle(fh: &FileHandle, buf: &[u8], at: usize) -> (r: Option<u64>)
    requires
        at + 8 + fh.handle_bytes <= buf.len(),
    ensures
        r == clear_inode(*fh, buf@, at as int, native_little()),
{
    inode_of_handle_as(fh, buf, at, little_endian())
}

/// What becomes of a handle that the kernel resolved.
pub open spec fn kept_here(ino: u64, dev: u64, root_dev: u64, path: Option<Vec<u8>>) -> (
    u64,
    Option<Vec<u8>>,
) {
    if ino == 0 || dev != root_dev {
        (0, None)
    } else {
        (ino, path)
    }
}

/// What becomes of a handle that the kernel resolved: a directory on another
/// subvolume or filesystem is not indexed here.
pub fn accept_resolved(ino: u64, dev: u64, root_dev: u64, path: Option<Vec<u8>>) -> (r: (
    u64,
    Option<Vec<u8>>,
))
    ensures
        r == kept_here(ino, dev, root_dev, path),
{
    if ino == 0 || dev != root_dev {
        return (0, None);
    }
    (ino, path)
}

// Mount points.

pub open spec fn is_octal(c: u8) -> bool {
    0x30 <= c <= 0x37
}

/// An escape: a backslash and three octal digits.
pub open spec fn escape_at(s: Seq<u8>) -> bool {
    s.len() >= 4 && s[0] == 0x5c && is_octal(s[1]) && is_octal(s[2]) && is_octal(s[3])
}

/// The byte that three octal digits stand for; a ninth bit is lost.
pub open spec fn octal(a: u8, b: u8, c: u8) -> u8 {
    (((a - 0x30) * 64 + (b - 0x30) * 8 + (c - 0x30)) % 256) as u8
}

/// With every escape replaced by the byte it stands for.
pub open spec fn unescaped(s: Seq<u8>) -> Seq<u8>
    decreases s.len(),
{
    if s.len() == 0 {
        seq![]
    } else if escape_at(s) {
        seq![octal(s[1], s[2], s[3])] + unescaped(s.skip(4))
    } else {
        seq![s[0]] + unescaped(s.skip(1))
    }
}

/// With every escape replaced by the byte it stands for.
pub fn unescape_mount(field: &[u8]) -> (out: Vec<u8>)
    ensures
        out@ == unescaped(field@),
{
    let mut out: Vec<u8> = Vec::new();
    let mut i: usize = 0;
    assert(field@.skip(0) =~= field@);
    assert(out@ + unescaped(field@) =~= unescaped(field@));
    while i < field.len()
        invariant
            i <= field.len(),
            out@ + unescaped(field@.skip(i as int)) == unescaped(field@),
        decreases field.len() - i,
    {
        let ghost rest = field@.skip(i as int);
        let ghost before = out@;
        assert(rest[0] == field@[i as int]);
        if field.len() - i >= 4 && field[i] == 0x5c && field[i + 1] >= 0x30 && field[i + 1] <= 0x37
            && field[i + 2] >= 0x30 && field[i + 2] <= 0x37 && field[i + 3] >= 0x30 && field[i + 3]
            <= 0x37 {
            assert(rest[1] == field@[i + 1] && rest[2] == field@[i + 2] && rest[3] == field@[i
                + 3]);
            let value: u32 = (field[i + 1] - 0x30) as u32 * 64 + (field[i + 2] - 0x30) as u32 * 8
                + (field[i + 3] - 0x30) as u32;
            out.push((value % 256) as u8);
            assert(rest.skip(4) =~= field@.skip(i + 4));
            assert(out@ + unescaped(rest.skip(4)) =~= before + unescaped(rest));
            i = i + 4;
        } else {
            proof {
                if rest.len() >= 4 {
                    assert(rest[1] == field@[i + 1] && rest[2] == field@[i + 2] && rest[3]
                        == field@[i + 3]);
                }
            }
            out.push(field[i]);
            assert(rest.skip(1) =~= field@.skip(i + 1));
            assert(out@ + unescaped(rest.skip(1)) =~= before + unescaped(rest));
            i = i + 1;
        }
    }
    assert(out@ =~= unescaped(field@));
    out
}

/// Where the line mounts something: its fifth field, unescaped.
pub open spec fn mount_of(line: Seq<u8>) -> Option<Seq<u8>> {
    let fields = pieces(line, 0x20);
    if fields.len() > 4 {
        Some(unescaped(fields[4]))
    } else {
        None
    }
}

/// Line `i` mounts a filesystem at `m`, and `path` lies in it.
pub open spec fn holds(mountinfo: Seq<u8>, path: Seq<u8>, i: int, m: Seq<u8>) -> bool {
    let lines = pieces(mountinfo, 0x0a);
    0 <= i < lines.len() && mount_of(lines[i]) == Some(m) && beneath(path, m)
}

/// Among the first `n` lines, `m` is the longest mount point that holds `path`,
/// and line `at` the first to name one of its length.
pub open spec fn longest_at(
    mountinfo: Seq<u8>,
    path: Seq<u8>,
    n: int,
    at: int,
    m: Seq<u8>,
) -> bool {
    &&& at < n
    &&& holds(mountinfo, path, at, m)
    &&& forall|i: int, other: Seq<u8>|
        i < n && #[trigger] holds(mountinfo, path, i, other) ==> other.len() <= m.len() && (i < at
            ==> other.len() < m.len())
}

/// `m` is the mount point that `path` sits on.
pub open spec fn mounted_at(mountinfo: Seq<u8>, path: Seq<u8>, m: Seq<u8>) -> bool {
    exists|at: int| #[trigger]
        longest_at(mountinfo, path, pieces(mountinfo, 0x0a).len() as int, at, m)
}

/// The longest mount point containing `path`. Field 5 of a mountinfo line is
/// the mount point, with space, tab, newline and backslash written as octal
/// escapes.
pub fn longest_mount(mountinfo: &[u8], path: &[u8]) -> (r: Option<Vec<u8>>)
    ensures
        match r {
            Some(m) => mounted_at(mountinfo@, path@, m@),
            None => forall|i: int, other: Seq<u8>| !#[trigger] holds(mountinfo@, path@, i, other),
        },
{
    let lines = split_bytes(mountinfo, 0x0a);
    let ghost all = pieces(mountinfo@, 0x0a);
    let mut best: Option<Vec<u8>> = None;
    let ghost mut at: int = 0;
    let mut i: usize = 0;
    while i < lines.len()
        invariant
            i <= lines@.len(),
            views(lines@) == all,
            all == pieces(mountinfo@, 0x0a),
            match best {
                Some(m) => longest_at(mountinfo@, path@, i as int, at, m@),
                None => forall|k: int, other: Seq<u8>|
                    k < i ==> !#[trigger] holds(mountinfo@, path@, k, other),
            },
        decreases lines@.len() - i,
    {
        assert(all[i as int] == lines@[i as int]@);
        let fields = split_bytes(lines[i].as_slice(), 0x20);
        let ghost fs = pieces(all[i as int], 0x20);
        let ghost best0 = best;
        assert forall|other: Seq<u8>| #[trigger]
            holds(mountinfo@, path@, i as int, other) implies fs.len() > 4 && other == unescaped(
            fs[4],
        ) by {}
        if fields.len() > 4 {
            assert(fs[4] == fields@[4]@);
            let m = unescape_mount(fields[4].as_slice());
            if under(path, m.as_slice()) {
                assert(holds(mountinfo@, path@, i as int, m@));
                let longer = match &best {
                    None => true,
                    Some(b) => m.len() > b.len(),
                };
                if longer {
                    best = Some(m);
                    proof {
                        at = i as int;
                    }
                }
            }
        }
        assert forall|k: int, other: Seq<u8>|
            k < i + 1 && #[trigger] holds(mountinfo@, path@, k, other) implies best is Some
            && other.len() <= best->Some_0@.len() && (k < at ==> other.len()
            < best->Some_0@.len()) by {
            if k < i {
                assert(best0 is Some);
            } else {
                assert(beneath(path@, other));
            }
        }
        i = i + 1;
    }
    assert(best is Some ==> longest_at(
        mountinfo@,
        path@,
        all.len() as int,
        at,
        best->Some_0@,
    ));
    best
}

/// The mount point found is the only one of its length: whatever the order of
/// the lines, the answer is the same.
pub proof fn longest_mount_is_unique(path: Seq<u8>, a: Seq<u8>, b: Seq<u8>)
    requires
        beneath(path, a),
        beneath(path, b),
        a.len() == b.len(),
        path.len() > 0 && path[0] == crate::bytes::SLASH,
    ensures
        a == b,
{
    let root = seq![crate::bytes::SLASH];
    if a == root || b == root {
        assert(a =~= b) by {
            if a != root {
                if path == a {
                } else {
                    assert(path.take(1)[0] == path[0]);
                }
                assert(a[0] == path[0]);
            }
            if b != root {
                if path == b {
                } else {
                    assert(path.take(1)[0] == path[0]);
                }
                assert(b[0] == path[0]);
            }
        }
    } else {
        assert(a =~= path.take(a.len() as int));
        assert(b =~= path.take(b.len() as int));
    }
}

// Buffers that were cut off.

proof fn lemma_cut_numbers(buf: Seq<u8>, n: int, at: int, little: bool)
    requires
        0 <= n <= buf.len(),
        0 <= at,
    ensures
        at + 2 <= n ==> num16(buf.take(n), at, little) == num16(buf, at, little),
        at + 4 <= n ==> num32(buf.take(n), at, little) == num32(buf, at, little),
        at + 8 <= n ==> num64(buf.take(n), at, little) == num64(buf, at, little),
{
    let cut = buf.take(n);
    if at + 2 <= n {
        assert(turned(cut, at, 2) =~= turned(buf, at, 2));
    }
    if at + 4 <= n {
        assert(turned(cut, at, 4) =~= turned(buf, at, 4));
    }
    if at + 8 <= n {
        assert(turned(cut, at, 8) =~= turned(buf, at, 8));
    }
}

proof fn lemma_cut_name(buf: Seq<u8>, n: int, from: int, end: int)
    requires
        0 <= from,
        end <= n <= buf.len(),
    ensures
        name_end(buf.take(n), from, end) == name_end(buf, from, end),
        from <= end ==> from <= name_end(buf, from, end) <= end,
    decreases end - from,
{
    if from < end {
        lemma_cut_name(buf, n, from + 1, end);
    }
}

proof fn lemma_cut_record(buf: Seq<u8>, n: int, mask: u64, start: int, end: int, little: bool)
    requires
        0 <= start,
        end <= n <= buf.len(),
    ensures
        record_at(buf.take(n), mask, start, end, little) == record_at(
            buf,
            mask,
            start,
            end,
            little,
        ),
{
    let at = start + 12;
    if at + 8 <= end {
        lemma_cut_numbers(buf, n, at, little);
        lemma_cut_numbers(buf, n, at + 4, little);
        let fh = handle_at(buf, at, little);
        let from = at + 8 + fh.handle_bytes;
        lemma_cut_name(buf, n, from, end);
        if from < end {
            let stop = name_end(buf, from, end);
            assert(buf.take(n).subrange(from, stop) =~= buf.subrange(from, stop));
        }
    }
}

proof fn lemma_cut_records(buf: Seq<u8>, n: int, mask: u64, at: int, end: int, little: bool)
    requires
        0 <= at,
        end <= n <= buf.len(),
    ensures
        records_from(buf.take(n), mask, at, end, little) == records_from(
            buf,
            mask,
            at,
            end,
            little,
        ),
    decreases end - at,
{
    if at + HDR <= end {
        lemma_cut_numbers(buf, n, at + 2, little);
        let len = num16(buf, at + 2, little);
        if len >= HDR && at + len <= end {
            lemma_cut_records(buf, n, mask, at + len, end, little);
            lemma_cut_record(buf, n, mask, at, at + len, little);
        }
    }
}

proof fn lemma_cut_events(buf: Seq<u8>, n: int, off: int, little: bool)
    requires
        0 <= off,
        0 <= n <= buf.len(),
    ensures
        events_from(buf.take(n), off, little).is_prefix_of(events_from(buf, off, little)),
    decreases n - off,
{
    let cut = buf.take(n);
    if off + META <= n {
        lemma_cut_numbers(buf, n, off, little);
        lemma_cut_numbers(buf, n, off + 6, little);
        lemma_cut_numbers(buf, n, off + 8, little);
        let len = num32(buf, off, little);
        if len >= META && off + len <= n {
            let end = off + len;
            let mask = num64(buf, off + 8, little) as u64;
            lemma_cut_events(buf, n, end, little);
            lemma_cut_records(buf, n, mask, info_start(buf, off, little), end, little);
            let head = if has_bits(mask, FAN_Q_OVERFLOW) {
                seq![RawEvent { mask, handle: None, name: seq![] }]
            } else {
                records_from(buf, mask, info_start(buf, off, little), end, little)
            };
            assert(events_from(cut, off, little) == head + events_from(cut, end, little));
            assert(events_from(buf, off, little) == head + events_from(buf, end, little));
            lemma_prefix_behind(
                head,
                events_from(cut, end, little),
                events_from(buf, end, little),
            );
        }
    }
}

proof fn lemma_prefix_behind(head: Seq<RawEvent>, a: Seq<RawEvent>, b: Seq<RawEvent>)
    requires
        a.is_prefix_of(b),
    ensures
        (head + a).is_prefix_of(head + b),
{
    assert(head + a =~= (head + b).subrange(0, (head + a).len() as int));
}

/// A buffer that was cut off yields the whole events before the cut, and
/// nothing else.
pub proof fn cut_buffers_yield_whole_events(buf: Seq<u8>, n: int, little: bool)
    requires
        0 <= n <= buf.len(),
    ensures
        events_from(buf.take(n), 0, little).is_prefix_of(events_from(buf, 0, little)),
{
    lemma_cut_events(buf, n, 0, little);
}

// Laws.

/// Numbers are read in the order of their bytes: the least significant one
/// first, or last.
pub proof fn numbers_are_read_either_way(s: Seq<u8>, at: int)
    ensures
        num16(s, at, true) == s[at] + 0x100 * s[at + 1],
        num16(s, at, false) == 0x100 * s[at] + s[at + 1],
        num32(s, at, true) == s[at] + 0x100 * s[at + 1] + 0x1_0000 * s[at + 2] + 0x100_0000 * s[at
            + 3],
        num32(s, at, false) == 0x100_0000 * s[at] + 0x1_0000 * s[at + 1] + 0x100 * s[at + 2] + s[at
            + 3],
        num64(s, at, true) == num32(s, at, true) + 0x1_0000_0000 * num32(s, at + 4, true),
        num64(s, at, false) == 0x1_0000_0000 * num32(s, at, false) + num32(s, at + 4, false),
{
    let (t, u, v) = (turned(s, at, 4), turned(s, at + 4, 4), turned(s, at, 8));
    assert(t[0] == s[at + 3] && t[1] == s[at + 2] && t[2] == s[at + 1] && t[3] == s[at]);
    assert(u[0] == s[at + 7] && u[1] == s[at + 6] && u[2] == s[at + 5] && u[3] == s[at + 4]);
    assert(v[0] == s[at + 7] && v[1] == s[at + 6] && v[2] == s[at + 5] && v[3] == s[at + 4]);
    assert(v[4] == s[at + 3] && v[5] == s[at + 2] && v[6] == s[at + 1] && v[7] == s[at]);
    let w = turned(s, at, 2);
    assert(w[0] == s[at + 1] && w[1] == s[at]);
}

proof fn lemma_name_end(buf: Seq<u8>, from: int, end: int, stop: int)
    requires
        0 <= from <= stop <= end <= buf.len(),
        forall|i: int| from <= i < stop ==> buf[i] != 0,
        stop < end ==> buf[stop] == 0,
    ensures
        name_end(buf, from, end) == stop,
    decreases stop - from,
{
    if from < stop {
        lemma_name_end(buf, from + 1, end, stop);
    }
}

/// A record that names an entry of a directory: its kind is 2, its length
/// stands behind it, and behind twelve bytes stand the handle's length and
/// type, the handle, and the name with a zero at its end.
pub open spec fn names_entry(
    buf: Seq<u8>,
    start: int,
    end: int,
    little: bool,
    held: nat,
    name: Seq<u8>,
) -> bool {
    let from = start + 20 + held;
    &&& 0 <= start && from + name.len() < end <= buf.len()
    &&& buf[start] == 2
    &&& num16(buf, start + 2, little) == end - start
    &&& num32(buf, start + 12, little) == held
    &&& held <= 128
    &&& buf.subrange(from, from + name.len()) == name
    &&& buf[from + name.len()] == 0
    &&& !name.contains(0)
}

/// The entry that a record names is reported, with the handle that stands in
/// the record; an empty name and a dot are not.
pub proof fn named_entries_are_reported(
    buf: Seq<u8>,
    mask: u64,
    start: int,
    end: int,
    little: bool,
    held: nat,
    name: Seq<u8>,
)
    requires
        names_entry(buf, start, end, little, held, name),
    ensures
        name.len() == 0 || name == seq![0x2eu8] ==> records_from(buf, mask, start, end, little)
            == Seq::<RawEvent>::empty(),
        name.len() > 0 && name != seq![0x2eu8] ==> {
            let all = records_from(buf, mask, start, end, little);
            &&& all.len() == 1
            &&& all[0].mask == mask
            &&& all[0].name == name
            &&& all[0].handle matches Some(h) && h.1 == start + 12 && h.0.handle_bytes == held
        },
{
    let from: int = start + 20 + held;
    let stop: int = from + name.len();
    assert forall|i: int| from <= i < stop implies buf[i] != 0 by {
        assert(buf.subrange(from, stop)[i - from] == buf[i]);
        assert(name.contains(name[i - from]));
    }
    lemma_name_end(buf, from, end, stop);
    assert(handle_at(buf, start + 12, little).handle_bytes == held);
    assert(records_from(buf, mask, end, end, little) =~= Seq::<RawEvent>::empty());
    let none = Seq::<RawEvent>::empty();
    assert(forall|e: RawEvent| #![trigger seq![e]] seq![e] + none =~= seq![e]);
}

/// Records of other kinds are passed over, and what follows them is read.
pub proof fn other_records_are_passed_over(
    buf: Seq<u8>,
    mask: u64,
    start: int,
    next: int,
    end: int,
    little: bool,
)
    requires
        0 <= start,
        start + 4 <= next <= end <= buf.len(),
        num16(buf, start + 2, little) == next - start,
        buf[start] != 2,
    ensures
        records_from(buf, mask, start, end, little) == records_from(buf, mask, next, end, little),
{
}

/// Each event is reported by what it holds, and those behind it follow: one
/// event where the kernel lost some, and otherwise those that its records name,
/// which start behind its fixed part of 24 bytes.
pub proof fn events_are_reported_in_order(buf: Seq<u8>, off: int, little: bool)
    requires
        0 <= off,
        off + 24 <= buf.len(),
        24 <= num32(buf, off, little) <= buf.len() - off,
    ensures
        ({
            let end = off + num32(buf, off, little);
            let mask = num64(buf, off + 8, little) as u64;
            let all = events_from(buf, off, little);
            let rest = events_from(buf, end, little);
            &&& mask & 0x4000 != 0 ==> all.len() == 1 + rest.len() && all.skip(1) == rest
                && all[0].mask == mask && all[0].handle is None && all[0].name.len() == 0
            &&& mask & 0x4000 == 0 && num16(buf, off + 6, little) == 24 ==> all == records_from(
                buf,
                mask,
                off + 24,
                end,
                little,
            ) + rest
        }),
{
    let end = off + num32(buf, off, little);
    let mask = num64(buf, off + 8, little) as u64;
    let all = events_from(buf, off, little);
    let rest = events_from(buf, end, little);
    if mask & 0x4000 != 0 {
        assert(all.skip(1) =~= rest);
    }
}

/// An event that does not fit into the buffer ends the report.
pub proof fn broken_events_end_the_report(buf: Seq<u8>, off: int, little: bool)
    requires
        0 <= off <= buf.len(),
        buf.len() - off < 24 || num32(buf, off, little) < 24 || num32(buf, off, little) > buf.len()
            - off,
    ensures
        events_from(buf, off, little) == Seq::<RawEvent>::empty(),
{
}

/// The inode stands at the start of a handle, in four bytes where the kind of
/// the handle is 1 or 2 and in eight where it is 0x81 or 0x82; no other handle
/// tells it.
pub proof fn handles_tell_the_inode(fh: FileHandle, buf: Seq<u8>, at: int)
    ensures
        (fh.handle_type == 1 || fh.handle_type == 2) && fh.handle_bytes >= 8 ==> (clear_inode(
            fh,
            buf,
            at,
            true,
        ) matches Some(ino) && ino == buf[at + 8] + 0x100 * buf[at + 9] + 0x1_0000 * buf[at + 10]
            + 0x100_0000 * buf[at + 11]),
        (fh.handle_type == 0x81 || fh.handle_type == 0x82) && fh.handle_bytes >= 12 ==> (
        clear_inode(fh, buf, at, true) matches Some(ino) && ino == buf[at + 8] + 0x100 * buf[at + 9]
            + 0x1_0000 * buf[at + 10] + 0x100_0000 * buf[at + 11] + 0x1_0000_0000 * buf[at + 12]
            + 0x100_0000_0000 * buf[at + 13] + 0x1_0000_0000_0000 * buf[at + 14]
            + 0x100_0000_0000_0000 * buf[at + 15]),
        fh.handle_type != 1 && fh.handle_type != 2 && fh.handle_type != 0x81 && fh.handle_type
            != 0x82 ==> clear_inode(fh, buf, at, true) is None && clear_inode(fh, buf, at, false)
            is None,
        fh.handle_bytes < 8 ==> clear_inode(fh, buf, at, true) is None,
        fh.handle_bytes < 12 && fh.handle_type > 2 ==> clear_inode(fh, buf, at, true) is None,
{
    numbers_are_read_either_way(buf, at + 8);
    numbers_are_read_either_way(buf, at + 12);
}

/// A directory is indexed where it lies on the device of the root, and not
/// elsewhere.
pub proof fn other_devices_are_left_alone(
    ino: u64,
    dev: u64,
    root_dev: u64,
    path: Option<Vec<u8>>,
)
    ensures
        dev == root_dev && ino != 0 ==> kept_here(ino, dev, root_dev, path) == (ino, path),
        dev != root_dev ==> kept_here(ino, dev, root_dev, path) == (0u64, None::<Vec<u8>>),
        ino == 0 ==> kept_here(ino, dev, root_dev, path) == (0u64, None::<Vec<u8>>),
{
}

/// The mount point as the kernel writes it: blanks, tabs, line breaks and
/// backslashes as a backslash and three octal digits.
pub open spec fn escaped(s: Seq<u8>) -> Seq<u8>
    decreases s.len(),
{
    if s.len() == 0 {
        seq![]
    } else {
        let first = if s[0] == 0x20 {
            seq![0x5cu8, 0x30, 0x34, 0x30]
        } else if s[0] == 0x09 {
            seq![0x5cu8, 0x30, 0x31, 0x31]
        } else if s[0] == 0x0a {
            seq![0x5cu8, 0x30, 0x31, 0x32]
        } else if s[0] == 0x5c {
            seq![0x5cu8, 0x31, 0x33, 0x34]
        } else {
            seq![s[0]]
        };
        first + escaped(s.skip(1))
    }
}

/// What the kernel wrote of a mount point is read back.
pub proof fn mount_points_are_read_back(s: Seq<u8>)
    ensures
        unescaped(escaped(s)) == s,
    decreases s.len(),
{
    if s.len() > 0 {
        let rest = escaped(s.skip(1));
        let all = escaped(s);
        mount_points_are_read_back(s.skip(1));
        if s[0] == 0x20 || s[0] == 0x09 || s[0] == 0x0a || s[0] == 0x5c {
            assert(all[0] == 0x5c && escape_at(all));
            assert(all.skip(4) =~= rest);
        } else {
            assert(all[0] == s[0]);
            assert(all.skip(1) =~= rest);
        }
        assert(seq![s[0]] + s.skip(1) =~= s);
    }
}

/// Any byte may be written in octal digits, and what is no escape stays.
pub proof fn octal_digits_are_read(s: Seq<u8>, a: u8, b: u8, c: u8, first: u8)
    requires
        a <= 3,
        b <= 7,
        c <= 7,
        first != 0x5c,
    ensures
        unescaped(seq![0x5cu8, (0x30 + a) as u8, (0x30 + b) as u8, (0x30 + c) as u8] + s) == seq![
            (64 * a + 8 * b + c) as u8,
        ] + unescaped(s),
        unescaped(seq![first] + s) == seq![first] + unescaped(s),
{
    let t = seq![0x5cu8, (0x30 + a) as u8, (0x30 + b) as u8, (0x30 + c) as u8] + s;
    assert(escape_at(t));
    assert(t.skip(4) =~= s);
    let u = seq![first] + s;
    assert(u[0] == first);
    assert(u.skip(1) =~= s);
}

/// The mount point is the fifth field of a line, and a line of fewer fields has
/// none.
pub proof fn the_fifth_field_is_the_mount_point(fields: Seq<Seq<u8>>, rest: Seq<u8>)
    requires
        fields.len() == 5,
        forall|i: int| 0 <= i < 5 ==> !(#[trigger] fields[i]).contains(0x20),
    ensures
        ({
            let b = seq![0x20u8];
            let head = fields[0] + b + fields[1] + b + fields[2] + b + fields[3];
            &&& mount_of(head + b + fields[4]) == Some(unescaped(fields[4]))
            &&& mount_of(head + b + fields[4] + b + rest) == Some(unescaped(fields[4]))
            &&& mount_of(head) is None
        }),
{
    let b = seq![0x20u8];
    let (f, g) = (fields[0], fields[0] + b + fields[1]);
    let h = g + b + fields[2];
    let head = h + b + fields[3];
    assert(!fields[0].contains(0x20) && !fields[1].contains(0x20) && !fields[2].contains(0x20));
    assert(!fields[3].contains(0x20) && !fields[4].contains(0x20));
    runs_are_not_parted(fields[0], 0x20);
    runs_are_not_parted(fields[1], 0x20);
    runs_are_not_parted(fields[2], 0x20);
    runs_are_not_parted(fields[3], 0x20);
    runs_are_not_parted(fields[4], 0x20);
    pieces_part_at_separators(f, fields[1], 0x20);
    pieces_part_at_separators(g, fields[2], 0x20);
    pieces_part_at_separators(h, fields[3], 0x20);
    pieces_part_at_separators(head, fields[4], 0x20);
    pieces_part_at_separators(head + b + fields[4], rest, 0x20);
    assert(pieces(head, 0x20).len() == 4);
    let line = pieces(head + b + fields[4], 0x20);
    assert(line.len() == 5 && line[4] == fields[4]);
    let longer = line + pieces(rest, 0x20);
    assert(longer[4] == fields[4]);
}

/// A path sits on a mount point that holds it, and no line names a longer one
/// that does.
pub proof fn paths_sit_on_the_longest_mount(
    mountinfo: Seq<u8>,
    path: Seq<u8>,
    m: Seq<u8>,
    i: int,
    other: Seq<u8>,
)
    requires
        mounted_at(mountinfo, path, m),
        0 <= i < pieces(mountinfo, 0x0a).len(),
        mount_of(pieces(mountinfo, 0x0a)[i]) == Some(other),
        beneath(path, other),
    ensures
        beneath(path, m),
        other.len() <= m.len(),
        exists|k: int|
            0 <= k < pieces(mountinfo, 0x0a).len() && mount_of(
                #[trigger] pieces(mountinfo, 0x0a)[k],
            ) == Some(m),
{
    let n = pieces(mountinfo, 0x0a).len() as int;
    let at = choose|at: int| #[trigger] longest_at(mountinfo, path, n, at, m);
    assert(holds(mountinfo, path, at, m));
    assert(holds(mountinfo, path, i, other));
    assert(mount_of(pieces(mountinfo, 0x0a)[at]) == Some(m));
}

/// An event says what its record said; of where it happened it says what was found
/// out about its handle, and nothing where events were lost.
pub proof fn events_say_what_was_reported<R: Fn(&FileHandle, usize) -> (u64, Option<Vec<u8>>)>(
    out: Seq<Event>,
    raw: Seq<RawEvent>,
    resolve: R,
    i: int,
)
    requires
        all_resolved(out, raw, resolve),
        0 <= i < raw.len(),
    ensures
        out.len() == raw.len(),
        out[i].mask == raw[i].mask,
        out[i].name@ == raw[i].name,
        raw[i].handle is None ==> out[i].parent_ino == 0 && out[i].parent_path is None,
        raw[i].handle matches Some(h) ==> call_ensures(
            resolve,
            (&h.0, h.1 as usize),
            (out[i].parent_ino, out[i].parent_path),
        ),
{
    assert(resolved_by(out[i], raw[i], resolve));
}

} // verus!
