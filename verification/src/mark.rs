//! Placing a fanotify mark on a whole filesystem: what is asked of the kernel,
//! and what becomes of a refusal.

use vstd::prelude::*;
use crate::bytes::same;
use crate::split::pieces;
use crate::text::push_text;
use crate::watch::{
    holds, longest_at, longest_mount, mounted_at, FAN_CLASS_NOTIF, FAN_CLOEXEC, FAN_CREATE,
    FAN_DELETE, FAN_MARK_ADD, FAN_MARK_FILESYSTEM, FAN_MOVED_FROM, FAN_MOVED_TO, FAN_ONDIR,
    FAN_REPORT_DFID_NAME, FAN_UNLIMITED_MARKS, FAN_UNLIMITED_QUEUE,
};
use crate::place::beneath;

verus! {

/// How the notification group is set up.
pub open spec fn group_flags() -> u32 {
    FAN_CLOEXEC | FAN_CLASS_NOTIF | FAN_REPORT_DFID_NAME | FAN_UNLIMITED_QUEUE | FAN_UNLIMITED_MARKS
}

/// How the notification group is set up. FAN_UNLIMITED_QUEUE means that events
/// are never silently dropped.
pub fn init_flags() -> (f: u32)
    ensures
        f == group_flags(),
{
    FAN_CLOEXEC | FAN_CLASS_NOTIF | FAN_REPORT_DFID_NAME | FAN_UNLIMITED_QUEUE | FAN_UNLIMITED_MARKS
}

/// How the mark is placed.
pub open spec fn placing_flags() -> u32 {
    FAN_MARK_ADD | FAN_MARK_FILESYSTEM
}

/// How the mark is placed: one covers the whole filesystem.
pub fn mark_flags() -> (f: u32)
    ensures
        f == placing_flags(),
{
    FAN_MARK_ADD | FAN_MARK_FILESYSTEM
}

/// What is watched for.
pub open spec fn watched() -> u64 {
    FAN_CREATE | FAN_DELETE | FAN_MOVED_FROM | FAN_MOVED_TO | FAN_ONDIR
}

/// What is watched for.
pub fn mark_mask() -> (m: u64)
    ensures
        m == watched(),
{
    FAN_CREATE | FAN_DELETE | FAN_MOVED_FROM | FAN_MOVED_TO | FAN_ONDIR
}

/// Why no notification group was set up.
pub enum InitFault {
    /// The kernel does not know the flags.
    Flags,
    /// The privilege is missing.
    Privilege,
    Other,
}

/// Why a mark was refused.
pub enum MarkFault {
    /// The path is not on the filesystem's own device.
    Device,
    /// The filesystem does not support file handles.
    Handles,
    Other,
}

pub open spec fn init_hint(fault: InitFault) -> Seq<char> {
    match fault {
        InitFault::Flags => " -- spoor needs Linux 5.9 or newer (FAN_REPORT_DFID_NAME)"@,
        InitFault::Privilege => " -- spoor needs CAP_SYS_ADMIN; run it as root"@,
        InitFault::Other => ""@,
    }
}

/// What is said of a notification group that was not set up.
pub fn init_message(fault: &InitFault, cause: &str) -> (s: String)
    ensures
        s@ == "fanotify_init: "@ + cause@ + init_hint(*fault),
{
    let mut s = "fanotify_init: ".to_owned();
    push_text(&mut s, cause);
    let hint = match fault {
        InitFault::Flags => " -- spoor needs Linux 5.9 or newer (FAN_REPORT_DFID_NAME)",
        InitFault::Privilege => " -- spoor needs CAP_SYS_ADMIN; run it as root",
        InitFault::Other => "",
    };
    push_text(&mut s, hint);
    s
}

pub open spec fn mark_hint(fault: MarkFault) -> Seq<char> {
    match fault {
        MarkFault::Device =>
            " -- fanotify refuses a filesystem mark on this path (a btrfs subvolume), and its mount point could not be marked either"@,
        MarkFault::Handles => " -- this filesystem does not support fanotify file handles"@,
        MarkFault::Other => ""@,
    }
}

/// What is said of a mark that was refused.
pub fn mark_message(mount: &str, fault: &MarkFault, cause: &str) -> (s: String)
    ensures
        s@ == "fanotify_mark "@ + mount@ + ": "@ + cause@ + mark_hint(*fault),
{
    let mut s = "fanotify_mark ".to_owned();
    push_text(&mut s, mount);
    push_text(&mut s, ": ");
    push_text(&mut s, cause);
    let hint = match fault {
        MarkFault::Device =>
            " -- fanotify refuses a filesystem mark on this path (a btrfs subvolume), and its mount point could not be marked either",
        MarkFault::Handles => " -- this filesystem does not support fanotify file handles",
        MarkFault::Other => "",
    };
    push_text(&mut s, hint);
    s
}

/// What is to be marked in place of `path`, whose mark was refused.
pub open spec fn stands_in(
    path: Seq<u8>,
    fault: MarkFault,
    mountinfo: Seq<u8>,
    r: Option<Seq<u8>>,
) -> bool {
    match r {
        Some(m) => fault is Device && mounted_at(mountinfo, path, m) && m != path,
        None => fault !is Device || forall|m: Seq<u8>| #[trigger]
            mounted_at(mountinfo, path, m) ==> m == path,
    }
}

/// What is to be marked in place of `path`, whose mark was refused. A btrfs
/// subvolume carries its own device number, and the kernel refuses a
/// filesystem mark on a path that is not on the filesystem's own device. One
/// mark covers the whole superblock, subvolumes included, so the containing
/// mount is marked instead.
pub fn marked_instead(path: &[u8], fault: &MarkFault, mountinfo: &[u8]) -> (r: Option<Vec<u8>>)
    ensures
        stands_in(
            path@,
            *fault,
            mountinfo@,
            match r {
                Some(m) => Some(m@),
                None => None,
            },
        ),
{
    match fault {
        MarkFault::Device => match longest_mount(mountinfo, path) {
            Some(m) => {
                if same(m.as_slice(), path) {
                    proof {
                        let n = pieces(mountinfo@, 0x0a).len() as int;
                        let at = choose|at: int| #[trigger]
                            longest_at(mountinfo@, path@, n, at, m@);
                        assert forall|other: Seq<u8>| #[trigger]
                            mounted_at(mountinfo@, path@, other) implies other == path@ by {
                            let b = choose|b: int| #[trigger]
                                longest_at(mountinfo@, path@, n, b, other);
                            assert(holds(mountinfo@, path@, at, m@));
                            assert(holds(mountinfo@, path@, b, other));
                        }
                    }
                    None
                } else {
                    Some(m)
                }
            },
            None => {
                assert forall|m: Seq<u8>| #[trigger]
                    mounted_at(mountinfo@, path@, m) implies m == path@ by {
                    let n = pieces(mountinfo@, 0x0a).len() as int;
                    let b = choose|b: int| #[trigger] longest_at(mountinfo@, path@, n, b, m);
                    assert(holds(mountinfo@, path@, b, m));
                }
                None
            },
        },
        _ => None,
    }
}

/// Watched for is what creates an entry or moves one here, what deletes one or
/// moves one away, whether a folder or not, and nothing else.
pub proof fn changes_of_names_are_watched_for(mask: u64)
    ensures
        mask & watched() != 0 <==> mask & 0x100 != 0 || mask & 0x80 != 0 || mask & 0x200 != 0
            || mask & 0x40 != 0 || mask & 0x4000_0000 != 0,
{
    assert(mask & (0x100u64 | 0x200 | 0x40 | 0x80 | 0x4000_0000) != 0 <==> mask & 0x100 != 0 || mask
        & 0x80 != 0 || mask & 0x200 != 0 || mask & 0x40 != 0 || mask & 0x4000_0000 != 0)
        by (bit_vector);
}

/// The group reports directories and names, and loses neither events nor marks
/// to a bound; a mark is added to it that covers a whole filesystem, and no other
/// flag is set.
pub proof fn the_group_is_told_names(flag: u32)
    ensures
        flag == 0x400 || flag == 0x800 || flag == 0x10 || flag == 0x20 || flag == 0x1
            ==> group_flags() & flag == flag,
        placing_flags() & flag == flag <==> flag & 0xffff_fefe == 0,
{
    assert((0x1u32 | 0x100) & flag == flag <==> flag & 0xffff_fefe == 0) by (bit_vector);
    assert(flag == 0x400 || flag == 0x800 || flag == 0x10 || flag == 0x20 || flag == 0x1 ==> (0x1u32
        | 0x0 | 0xc00 | 0x10 | 0x20) & flag == flag) by (bit_vector);
}

/// A mount point is marked in place of a path that lies in it, where the path's
/// device was refused and the path is no mount point itself, and nowhere else.
pub proof fn mounts_are_marked_for_what_lies_in_them(
    path: Seq<u8>,
    fault: MarkFault,
    mountinfo: Seq<u8>,
    m: Seq<u8>,
)
    ensures
        stands_in(path, fault, mountinfo, Some(m)) ==> fault is Device && beneath(path, m) && m
            != path,
        fault is Device && mounted_at(mountinfo, path, m) && m != path ==> !stands_in(
            path,
            fault,
            mountinfo,
            None,
        ) && stands_in(path, fault, mountinfo, Some(m)),
        fault !is Device ==> stands_in(path, fault, mountinfo, None),
        !stands_in(path, fault, mountinfo, Some(path)),
{
    if mounted_at(mountinfo, path, m) {
        let n = pieces(mountinfo, 0x0a).len() as int;
        let at = choose|at: int| #[trigger] longest_at(mountinfo, path, n, at, m);
        assert(holds(mountinfo, path, at, m));
    }
}

/// Each fault has a hint of its own.
pub proof fn hints_tell_faults_apart()
    ensures
        init_hint(InitFault::Flags) != init_hint(InitFault::Privilege),
        init_hint(InitFault::Flags).len() > 0,
        init_hint(InitFault::Privilege).len() > 0,
        init_hint(InitFault::Other).len() == 0,
        mark_hint(MarkFault::Device) != mark_hint(MarkFault::Handles),
        mark_hint(MarkFault::Device).len() > 0,
        mark_hint(MarkFault::Handles).len() > 0,
        mark_hint(MarkFault::Other).len() == 0,
{
    reveal_strlit(" -- spoor needs Linux 5.9 or newer (FAN_REPORT_DFID_NAME)");
    reveal_strlit(" -- spoor needs CAP_SYS_ADMIN; run it as root");
    reveal_strlit(
        " -- fanotify refuses a filesystem mark on this path (a btrfs subvolume), and its mount point could not be marked either",
    );
    reveal_strlit(" -- this filesystem does not support fanotify file handles");
    reveal_strlit("");
    assert(init_hint(InitFault::Flags)[16] == 'L' && init_hint(InitFault::Privilege)[16] == 'C');
    assert(mark_hint(MarkFault::Device)[4] == 'f' && mark_hint(MarkFault::Handles)[4] == 't');
}

} // verus!
