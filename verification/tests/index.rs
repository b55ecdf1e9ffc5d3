//! Tests for the index codec and engine.

use gitcore::index::{add_to_index, name_record_size, parse, write_to_file, IndexEntry, IndexError,
    IndexMeta, StatInfo, UnixStat};
use gitcore::objects::Id;
use sha1::Digest;

fn id_from_hex(s: &str) -> Id {
    Id::from(s.as_bytes()).unwrap()
}

fn push_be32(out: &mut Vec<u8>, n: u32) {
    out.extend_from_slice(&n.to_be_bytes());
}

fn push_be16(out: &mut Vec<u8>, n: u16) {
    out.extend_from_slice(&n.to_be_bytes());
}

fn push_meta(out: &mut Vec<u8>, m: &IndexMeta) {
    push_be32(out, m.ctime.get());
    push_be32(out, m.ctime_ns.get());
    push_be32(out, m.mtime.get());
    push_be32(out, m.mtime_ns.get());
    push_be32(out, m.dev.get());
    push_be32(out, m.ino.get());
    push_be32(out, m.mode.get());
    push_be32(out, m.uid.get());
    push_be32(out, m.gid.get());
    push_be32(out, m.size.get());
    out.extend_from_slice(&m.id.bytes);
    push_be16(out, m.flags.get());
}

/// The canonical on-disk bytes of an index: header, records with NUL
/// padding to an eight-byte boundary, and a SHA-1 trailer.
fn canonical_bytes(entries: &Vec<IndexEntry>) -> Vec<u8> {
    let mut out = b"DIRC".to_vec();
    push_be32(&mut out, 2);
    push_be32(&mut out, entries.len() as u32);
    for e in entries {
        push_meta(&mut out, &e.meta);
        out.extend_from_slice(&e.name);
        let pad = 8 - (62 + e.name.len()) % 8;
        for _ in 0..pad {
            out.push(0);
        }
    }
    let digest = sha1::Sha1::digest(&out);
    out.extend_from_slice(&digest);
    out
}

fn item_meta(ct: u32, ctn: u32, mt: u32, mtn: u32, size: u32, id: &str, flags: u16) -> IndexMeta {
    IndexMeta {
        ctime: ct.into(),
        ctime_ns: ctn.into(),
        mtime: mt.into(),
        mtime_ns: mtn.into(),
        dev: 0x0.into(),
        ino: 0x0.into(),
        mode: 0x81a4.into(),
        uid: 0x0.into(),
        gid: 0x0.into(),
        size: size.into(),
        id: id_from_hex(id),
        flags: flags.into(),
    }
}

#[test]
fn test_index() {
    let index = vec![
        IndexEntry {
            name: b"item1".to_vec(),
            meta: item_meta(
                0x5e9bf1c6,
                0x26545c10,
                0x5e9bf1ce,
                0x30640b74,
                0x8,
                "07d4aba2654d6d44c24862467d86ee8eb67840fe",
                0x5,
            ),
        },
        IndexEntry {
            name: b"item2".to_vec(),
            meta: item_meta(
                0x5e9bf1c9,
                0xb204508,
                0x5e9bf1d2,
                0x2ce99284,
                0xc,
                "0bfeb48f6e414e435fe4fbf1d85d5a3a83dd4251",
                0x5,
            ),
        },
    ];

    let idx_buf = write_to_file(&index);
    assert_eq!(idx_buf, canonical_bytes(&index));

    let parsed = parse(&idx_buf).unwrap();
    assert_eq!(index, parsed);
}

#[test]
fn test_index_trailer_is_hash() {
    let index = vec![IndexEntry {
        name: b"only".to_vec(),
        meta: item_meta(1, 2, 3, 4, 5, "07d4aba2654d6d44c24862467d86ee8eb67840fe", 4),
    }];
    let buf = write_to_file(&index);
    let body = &buf[..buf.len() - 20];
    let trailer = &buf[buf.len() - 20..];
    let digest = sha1::Sha1::digest(body);
    assert_eq!(trailer, &digest[..]);
}

#[test]
fn test_name_record_size() {
    // 62 + 2 = 64 is already a multiple of eight: a full extra block of
    // padding is still added.
    assert_eq!(name_record_size(2), 2 + 8);
    // 62 + 5 = 67 pads up to 72.
    assert_eq!(name_record_size(5), 5 + 5);
    assert_eq!(name_record_size(0), 8 - 62 % 8);
}

#[test]
fn test_index_parse_errors() {
    let index = vec![IndexEntry {
        name: b"only".to_vec(),
        meta: item_meta(1, 2, 3, 4, 5, "07d4aba2654d6d44c24862467d86ee8eb67840fe", 4),
    }];
    let good = write_to_file(&index);

    let mut bad_magic = good.clone();
    bad_magic[0] = b'X';
    assert_eq!(parse(&bad_magic), Err(IndexError::BadMagic));

    let mut bad_version = good.clone();
    bad_version[7] = 3;
    assert_eq!(parse(&bad_version), Err(IndexError::UnsupportedVersion(3)));

    assert_eq!(parse(&good[..8].to_vec()), Err(IndexError::Truncated));

    let mut too_many = good.clone();
    too_many[11] = 9;
    assert_eq!(parse(&too_many), Err(IndexError::Truncated));

    let unsorted = vec![
        IndexEntry {
            name: b"zzz".to_vec(),
            meta: item_meta(1, 2, 3, 4, 5, "07d4aba2654d6d44c24862467d86ee8eb67840fe", 3),
        },
        IndexEntry {
            name: b"aaa".to_vec(),
            meta: item_meta(1, 2, 3, 4, 5, "07d4aba2654d6d44c24862467d86ee8eb67840fe", 3),
        },
    ];
    // Serialize by hand: `write_to_file` only accepts sorted indexes.
    let bytes = canonical_bytes(&unsorted);
    assert_eq!(parse(&bytes), Err(IndexError::Unsorted));
}

#[test]
fn test_index_overlong_name_marker() {
    // An entry whose flags field carries the overflow marker is unsupported.
    let mut out = b"DIRC".to_vec();
    push_be32(&mut out, 2);
    push_be32(&mut out, 1);
    let mut meta = item_meta(1, 2, 3, 4, 5, "07d4aba2654d6d44c24862467d86ee8eb67840fe", 4);
    meta.flags = 0xfffu16.into();
    push_meta(&mut out, &meta);
    out.extend_from_slice(b"name\0\0\0\0\0\0");
    assert_eq!(parse(&out), Err(IndexError::UnsupportedNameLen));
}

fn stat(mt: u32, size: u32) -> StatInfo {
    StatInfo {
        ctime: (mt, 0),
        mtime: (mt, 0),
        size,
        unix_stat: UnixStat { dev: 0, ino: 0, uid: 0, gid: 0, executable: false },
    }
}

#[test]
fn test_add_to_index_insert_and_fast_path() {
    let mut index = Vec::new();
    let st = stat(100, 5);
    let id = add_to_index(&mut index, &b"hello.txt".to_vec(), &st, &b"hello".to_vec());
    // The blob identifier of `hello` is fixed.
    assert_eq!(id, id_from_hex("b6fc4c620b67d95f953a5c1c1230aaab5db5a1b0"));
    assert_eq!(index.len(), 1);
    assert_eq!(index[0].name, b"hello.txt".to_vec());

    // Unchanged stat: the stored identifier is returned and nothing moves.
    let id2 = add_to_index(&mut index, &b"hello.txt".to_vec(), &st, &b"ignored".to_vec());
    assert_eq!(id2, id_from_hex("b6fc4c620b67d95f953a5c1c1230aaab5db5a1b0"));
    assert_eq!(index.len(), 1);

    // Changed stat: the entry is rebuilt from the new content.
    let st2 = stat(200, 9);
    let id3 = add_to_index(&mut index, &b"hello.txt".to_vec(), &st2, &b"different".to_vec());
    assert_ne!(id3, id2);
    assert_eq!(index.len(), 1);
    assert_eq!(index[0].meta.id, id3);

    // A second path is inserted in sorted position.
    let id4 = add_to_index(&mut index, &b"abc.txt".to_vec(), &st, &b"abc".to_vec());
    assert_eq!(index.len(), 2);
    assert_eq!(index[0].name, b"abc.txt".to_vec());
    assert_eq!(index[0].meta.id, id4);
    assert_eq!(index[1].name, b"hello.txt".to_vec());
}

#[test]
fn test_is_same_as_tree() {
    let mut index = Vec::new();
    let st = stat(100, 5);
    add_to_index(&mut index, &b"hello.txt".to_vec(), &st, &b"hello".to_vec());

    // Fast path: equal stat.
    assert!(index[0].is_same_as_tree(&st, &b"anything".to_vec()));
    // Stat differs but the content hashes to the stored identifier.
    let st2 = stat(300, 5);
    assert!(index[0].is_same_as_tree(&st2, &b"hello".to_vec()));
    // Stat differs and so does the content.
    assert!(!index[0].is_same_as_tree(&st2, &b"other".to_vec()));
}

#[test]
fn test_stat_wildcards() {
    // Zero dev/ino/uid/gid on either side are treated as "not recorded".
    let a = StatInfo {
        ctime: (1, 2),
        mtime: (3, 4),
        size: 5,
        unix_stat: UnixStat { dev: 0, ino: 7, uid: 0, gid: 9, executable: false },
    };
    let b = StatInfo {
        ctime: (1, 2),
        mtime: (3, 4),
        size: 5,
        unix_stat: UnixStat { dev: 6, ino: 7, uid: 8, gid: 0, executable: false },
    };
    assert!(a.matches(&b));
    let c = StatInfo { unix_stat: UnixStat { ino: 8, ..b.unix_stat }, ..b };
    assert!(!a.matches(&c));
}

#[test]
fn test_meta_statinfo() {
    let meta = item_meta(9, 8, 7, 6, 5, "07d4aba2654d6d44c24862467d86ee8eb67840fe", 5);
    let si = meta.statinfo();
    assert_eq!(si.ctime, (9, 8));
    assert_eq!(si.mtime, (7, 6));
    assert_eq!(si.size, 5);
    assert!(!si.unix_stat.executable);
    assert_eq!(UnixStat { dev: 0, ino: 0, uid: 0, gid: 0, executable: true }.mode(), 0o100755);
}
