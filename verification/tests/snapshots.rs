//! Snapshots as bytes.

use spoor::index::Index;
use spoor::persist::{decode, encode, write_index, SnapshotError, MAX_PARTS};
use spoor::tree::NO_PARENT;

const MAGIC: &[u8] = b"SPOOR002";
const MAGIC_V1: &[u8] = b"EVRYTHD1";

fn one(ix: &Index) -> Vec<(&str, &Index)> {
    vec![("/tmp", ix)]
}

fn reload(bytes: &[u8]) -> Index {
    let mut parts = decode(bytes).unwrap();
    assert_eq!(parts.len(), 1);
    parts.remove(0).1
}

#[test]
fn snapshot_keeps_raw_name_bytes() {
    let mut ix = Index::new();
    let r = ix.add(NO_PARENT, b"/tmp", true, 1);
    ix.set_root(r);
    ix.add(r, &b"caf\xe9"[..], false, 2);
    ix.add(r, "ÉTÉ.txt".as_bytes(), false, 3);
    let back = reload(&encode(&one(&ix)));
    assert_eq!(back.search_raw("caf", 10), vec![b"/tmp/caf\xe9".to_vec()]);
    // folding still applies after a reload
    assert_eq!(back.search("été", 10), vec!["/tmp/ÉTÉ.txt"]);
}

#[test]
fn snapshot_round_trip() {
    let mut ix = Index::new();
    let root = ix.add(NO_PARENT, b"/tmp", true, 1);
    ix.set_root(root);
    let d = ix.add(root, b"dir", true, 2);
    ix.add(d, b"File-ABC.txt", false, 3);
    let gone = ix.add(d, b"deleted.txt", false, 4);
    ix.remove(gone);

    let back = reload(&encode(&one(&ix)));
    assert_eq!(back.len(), ix.len());
    assert_eq!(back.search("file-abc", 10), vec!["/tmp/dir/File-ABC.txt"]);
    // dead entries must stay dead across a reload
    assert_eq!(back.search("deleted.txt", 10).len(), 0);
}

fn tree(root: &str, name: &str) -> Index {
    let mut ix = Index::new();
    let r = ix.add(NO_PARENT, root.as_bytes(), true, 1);
    ix.set_root(r);
    ix.add(r, name.as_bytes(), false, 2);
    ix
}

#[test]
fn several_parts_keep_their_folders() {
    let (a, b) = (tree("/home", "a.txt"), tree("/srv/data", "b.txt"));
    let bytes = encode(&[("/home", &a), ("/srv/data", &b)]);
    let parts = decode(&bytes).unwrap();
    let roots: Vec<&str> = parts.iter().map(|(r, _)| r.as_str()).collect();
    assert_eq!(roots, vec!["/home", "/srv/data"]);
    assert_eq!(parts[1].1.search("b.txt", 10), vec!["/srv/data/b.txt"]);
}

#[test]
fn pre_release_snapshots_still_load() {
    let ix = tree("/home", "old.txt");
    let mut bytes = MAGIC_V1.to_vec();
    write_index(&mut bytes, &ix);
    let parts = decode(&bytes).unwrap();
    assert_eq!(parts[0].0, "/home");
    assert_eq!(parts[0].1.search("old", 10), vec!["/home/old.txt"]);
}

#[test]
fn damaged_snapshots_are_refused_not_trusted() {
    let mut bytes = MAGIC.to_vec();
    bytes.extend(1u32.to_le_bytes()); // one part
    bytes.extend(5u16.to_le_bytes());
    bytes.extend(b"/home");
    bytes.extend(2u64.to_le_bytes()); // two entries
    bytes.extend(0u32.to_le_bytes()); // root id 0
    for parent in [NO_PARENT, 7] {
        // the second names a parent that does not precede it
        bytes.extend(parent.to_le_bytes());
        bytes.push(1);
        bytes.extend(1u16.to_le_bytes());
        bytes.push(b'x');
    }
    let e = decode(&bytes);
    assert!(e.is_err(), "must refuse");
    assert_eq!(e.err(), Some(SnapshotError::ParentOrder));
}

fn refusal(bytes: &[u8]) -> SnapshotError {
    decode(bytes).err().unwrap()
}

#[test]
fn every_kind_of_damage_has_its_name() {
    let ix = tree("/home", "a.txt");
    let good = encode(&[("/home", &ix)]);
    // however a snapshot is cut off, it is not taken for a whole one
    for cut in 0..good.len() {
        assert_eq!(refusal(&good[..cut]), SnapshotError::Truncated, "cut at {}", cut);
    }
    let mut magic = good.clone();
    magic[0] = b'X';
    assert_eq!(refusal(&magic), SnapshotError::BadMagic);
    assert_eq!(refusal(&magic).text(), "bad snapshot magic");

    let mut parts = MAGIC.to_vec();
    parts.extend((MAX_PARTS + 1).to_le_bytes());
    assert_eq!(refusal(&parts), SnapshotError::PartCount);

    let mut utf8 = good.clone();
    utf8[14] = 0xff; // the first byte of the folder's path
    assert_eq!(refusal(&utf8), SnapshotError::RootNotUtf8);

    let mut count = MAGIC_V1.to_vec();
    count.extend((NO_PARENT as u64).to_le_bytes());
    assert_eq!(refusal(&count), SnapshotError::EntryCount);

    let mut root = MAGIC_V1.to_vec();
    root.extend(1u64.to_le_bytes());
    root.extend(1u32.to_le_bytes());
    assert_eq!(refusal(&root), SnapshotError::RootOutOfRange);
    assert_eq!(refusal(&root).text(), "root out of range");
}

#[test]
fn a_snapshot_has_the_documented_layout() {
    let mut ix = Index::new();
    let r = ix.add(NO_PARENT, b"/x", true, 1);
    ix.set_root(r);
    let f = ix.add(r, b"f", false, 2);
    ix.remove(f);
    let mut want = MAGIC.to_vec();
    want.extend(1u32.to_le_bytes());
    want.extend(2u16.to_le_bytes());
    want.extend(b"/x");
    want.extend(2u64.to_le_bytes());
    want.extend(0u32.to_le_bytes());
    want.extend(NO_PARENT.to_le_bytes());
    want.push(3);
    want.extend(2u16.to_le_bytes());
    want.extend(b"/x");
    want.extend(0u32.to_le_bytes());
    want.push(0);
    want.extend(1u16.to_le_bytes());
    want.extend(b"f");
    assert_eq!(encode(&[("/x", &ix)]), want);
    // an empty index, and no index at all
    let none = Index::new();
    assert_eq!(decode(&encode(&[("/x", &none)])).unwrap()[0].1.raw_len(), 0);
    assert_eq!(decode(&encode(&[])).unwrap().len(), 0);
}
