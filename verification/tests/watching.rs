//! What the kernel reports.

use spoor::watch::{
    accept_resolved, inode_of_handle, inode_of_handle_as, longest_mount, parse_events,
    parse_events_as, unescape_mount, FileHandle, FAN_CREATE, FAN_DELETE,
    FAN_EVENT_INFO_TYPE_DFID_NAME, FAN_MOVED_FROM, FAN_MOVED_TO, FAN_ONDIR, FAN_Q_OVERFLOW,
};

/// One fanotify event carrying a DFID_NAME record, laid out as the kernel
/// writes it (info records padded to 4 bytes).
fn record(mask: u64, handle_type: i32, payload: &[u8], name: &[u8]) -> Vec<u8> {
    let mut info = vec![FAN_EVENT_INFO_TYPE_DFID_NAME, 0, 0, 0];
    info.extend_from_slice(&[0u8; 8]); // fsid
    info.extend_from_slice(&(payload.len() as u32).to_ne_bytes());
    info.extend_from_slice(&handle_type.to_ne_bytes());
    info.extend_from_slice(payload);
    info.extend_from_slice(name);
    info.push(0);
    while info.len() % 4 != 0 {
        info.push(0);
    }
    let ilen = info.len() as u16;
    info[2..4].copy_from_slice(&ilen.to_ne_bytes());
    let mut ev = Vec::new();
    ev.extend_from_slice(&((24 + info.len()) as u32).to_ne_bytes()); // event_len
    ev.extend_from_slice(&[3, 0]); // vers, reserved
    ev.extend_from_slice(&24u16.to_ne_bytes()); // metadata_len
    ev.extend_from_slice(&mask.to_ne_bytes());
    ev.extend_from_slice(&(-1i32).to_ne_bytes()); // fd
    ev.extend_from_slice(&42i32.to_ne_bytes()); // pid
    ev.extend_from_slice(&info);
    ev
}

fn by_type(fh: &FileHandle, _off: usize) -> (u64, Option<Vec<u8>>) {
    (fh.handle_type as u64, None)
}

#[test]
fn mount_points_come_from_mountinfo() {
    let info = b"25 30 0:23 / / rw,relatime shared:1 - ext4 /dev/sda1 rw\n\
         31 25 0:41 / /mnt/disk\\040two rw shared:9 - btrfs /dev/sdb1 rw\n\
         32 25 0:42 / /mnt/disk rw shared:9 - btrfs /dev/sdc1 rw\n";
    let m = |p: &str| longest_mount(info, p.as_bytes()).map(|v| String::from_utf8(v).unwrap());
    assert_eq!(m("/mnt/disk/sub/a").as_deref(), Some("/mnt/disk"));
    assert_eq!(m("/mnt/disk two/x").as_deref(), Some("/mnt/disk two"));
    assert_eq!(m("/mnt/diskother").as_deref(), Some("/"));
    assert_eq!(m("/home/alice").as_deref(), Some("/"));
    assert_eq!(longest_mount(b"", b"/home"), None);
    assert_eq!(unescape_mount(b"/a\\040b"), b"/a b".to_vec());
    assert_eq!(unescape_mount(b"/plain\\09"), b"/plain\\09".to_vec());
}

#[test]
fn decodes_a_create_event() {
    let buf = record(
        FAN_CREATE | FAN_ONDIR,
        1,
        &[7, 0, 0, 0, 9, 9, 9, 9],
        b"photos",
    );
    let evs = parse_events(&buf, &by_type);
    assert_eq!(evs.len(), 1);
    assert_eq!(evs[0].name, b"photos".to_vec());
    assert!(evs[0].is_dir() && evs[0].is_create());
    assert_eq!(evs[0].parent_ino, 1, "resolver saw the handle type");
}

#[test]
fn records_at_unaligned_offsets() {
    // 24 + 4 + 8 + 8 + 8 + len("abcd") + NUL = 57, padded to 60: 4- but
    // not 8-aligned, so the second record's u64 mask sits misaligned
    let mut buf = record(FAN_CREATE, 1, &[1; 8], b"abcd");
    assert_eq!(buf.len() % 8, 4);
    buf.extend(record(FAN_DELETE, 1, &[2; 8], b"second"));
    let evs = parse_events(&buf, &by_type);
    assert_eq!(evs.len(), 2);
    assert_eq!(evs[1].name, b"second".to_vec());
    assert!(evs[1].is_delete());
}

#[test]
fn truncated_buffers_yield_only_whole_events() {
    let mut buf = record(FAN_CREATE, 1, &[1; 8], b"first");
    let whole = buf.len();
    buf.extend(record(FAN_CREATE, 1, &[1; 8], b"cut-off"));
    for cut in 0..buf.len() {
        let evs = parse_events(&buf[..cut], &by_type);
        assert_eq!(
            evs.len(),
            if cut >= whole { 1 } else { 0 },
            "cut at {}",
            cut
        );
    }
}

#[test]
fn malformed_records_are_skipped() {
    // handle larger than the kernel allows
    let big = record(FAN_CREATE, 1, &[0; 200], b"x");
    assert!(parse_events(&big, &by_type).is_empty());
    // name with no terminator inside the record
    let mut noterm = record(FAN_CREATE, 1, &[0; 8], b"name");
    let n = noterm.len();
    for b in &mut noterm[n - 4..] {
        *b = b'z';
    }
    assert!(parse_events(&noterm, &by_type).is_empty());
    // info header with length 0 must not loop forever
    let mut zero = record(FAN_CREATE, 1, &[0; 8], b"name");
    zero[24 + 2] = 0;
    zero[24 + 3] = 0;
    assert!(parse_events(&zero, &by_type).is_empty());
    // event_len smaller than the metadata
    let mut short = record(FAN_CREATE, 1, &[0; 8], b"name");
    short[0..4].copy_from_slice(&8u32.to_ne_bytes());
    assert!(parse_events(&short, &by_type).is_empty());
}

#[test]
fn queue_overflow_is_reported() {
    let mut ev = Vec::new();
    ev.extend_from_slice(&24u32.to_ne_bytes());
    ev.extend_from_slice(&[3, 0]);
    ev.extend_from_slice(&24u16.to_ne_bytes());
    ev.extend_from_slice(&FAN_Q_OVERFLOW.to_ne_bytes());
    ev.extend_from_slice(&(-1i32).to_ne_bytes());
    ev.extend_from_slice(&0i32.to_ne_bytes());
    let evs = parse_events(&ev, &by_type);
    assert_eq!(evs.len(), 1);
    assert!(evs[0].mask & FAN_Q_OVERFLOW != 0);
}

#[test]
fn never_panics_on_garbage() {
    // xorshift: deterministic, no dependency
    let mut x: u64 = 0x9E37_79B9_7F4A_7C15;
    let mut next = || {
        x ^= x << 13;
        x ^= x >> 7;
        x ^= x << 17;
        x
    };
    for _ in 0..5_000 {
        let len = (next() % 600) as usize;
        let buf: Vec<u8> = (0..len).map(|_| next() as u8).collect();
        let _ = parse_events(&buf, &by_type);
    }
    // and mutations of a valid record, which get past the first checks
    let base = record(FAN_CREATE, 1, &[1; 8], b"valid-name");
    for _ in 0..20_000 {
        let mut m = base.clone();
        for _ in 0..(1 + next() % 4) {
            let i = (next() as usize) % m.len();
            m[i] = next() as u8;
        }
        let _ = parse_events(&m, &by_type);
    }
}

#[test]
fn either_byte_order_is_understood() {
    let mut big = Vec::new();
    big.extend_from_slice(&24u32.to_be_bytes());
    big.extend_from_slice(&[3, 0]);
    big.extend_from_slice(&24u16.to_be_bytes());
    big.extend_from_slice(&FAN_Q_OVERFLOW.to_be_bytes());
    big.extend_from_slice(&[0; 8]);
    assert_eq!(parse_events_as(&big, false, &by_type)[0].mask, FAN_Q_OVERFLOW);
    assert!(parse_events_as(&big, true, &by_type).is_empty());
}

#[test]
fn moves_count_as_creation_and_deletion() {
    let ev = |mask| parse_events(&record(mask, 1, &[1; 8], b"n"), &by_type).remove(0);
    assert!(ev(FAN_MOVED_TO).is_create() && !ev(FAN_MOVED_TO).is_delete());
    assert!(ev(FAN_MOVED_FROM).is_delete() && !ev(FAN_MOVED_FROM).is_create());
    assert!(!ev(FAN_CREATE).is_dir() && !ev(FAN_CREATE).is_overflow());
    // a directory's own entry is no event
    assert!(parse_events(&record(FAN_CREATE, 1, &[1; 8], b"."), &by_type).is_empty());
}

#[test]
fn handles_give_away_their_inodes() {
    let mut buf = vec![0u8; 8];
    buf.extend_from_slice(&0x0102_0304_0506_0708u64.to_le_bytes());
    buf.extend_from_slice(&[0; 4]);
    let fh = |handle_bytes, handle_type| FileHandle {
        handle_bytes,
        handle_type,
    };
    assert_eq!(inode_of_handle_as(&fh(8, 1), &buf, 0, true), Some(0x0506_0708));
    assert_eq!(inode_of_handle_as(&fh(8, 2), &buf, 0, true), Some(0x0506_0708));
    assert_eq!(
        inode_of_handle_as(&fh(12, 0x81), &buf, 0, true),
        Some(0x0102_0304_0506_0708)
    );
    assert_eq!(inode_of_handle_as(&fh(8, 0x82), &buf, 0, true), None);
    assert_eq!(inode_of_handle_as(&fh(4, 1), &buf, 0, true), None);
    assert_eq!(inode_of_handle_as(&fh(12, 0x4d), &buf, 0, true), None);
    assert_eq!(inode_of_handle_as(&fh(8, 1), &buf, 0, false), Some(0x0807_0605));
    let mut native = vec![0u8; 8];
    native.extend_from_slice(&77u32.to_ne_bytes());
    native.extend_from_slice(&[0; 4]);
    assert_eq!(inode_of_handle(&fh(8, 1), &native, 0), Some(77));
}

#[test]
fn other_filesystems_are_not_ours() {
    assert_eq!(accept_resolved(5, 1, 1, Some(b"/a".to_vec())), (5, Some(b"/a".to_vec())));
    assert_eq!(accept_resolved(5, 2, 1, Some(b"/a".to_vec())), (0, None));
    assert_eq!(accept_resolved(0, 1, 1, Some(b"/a".to_vec())), (0, None));
}

#[test]
fn the_last_longest_mount_wins_whatever_the_order() {
    let lines: [&[u8]; 3] = [
        b"1 1 0:1 / / rw",
        b"2 1 0:2 / /a/b rw",
        b"3 1 0:3 / /a rw",
    ];
    for order in [[0, 1, 2], [2, 1, 0], [1, 0, 2]] {
        let info: Vec<u8> = order
            .iter()
            .flat_map(|&i| [lines[i], b"\n"].concat())
            .collect();
        assert_eq!(longest_mount(&info, b"/a/b/c"), Some(b"/a/b".to_vec()));
        assert_eq!(longest_mount(&info, b"/a/c"), Some(b"/a".to_vec()));
        assert_eq!(longest_mount(&info, b"/x"), Some(b"/".to_vec()));
    }
    assert_eq!(unescape_mount(b"\\134\\011"), b"\\\t".to_vec());
}
