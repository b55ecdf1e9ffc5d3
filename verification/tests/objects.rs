//! Tests for the object model and codec.

use gitcore::hash::zlib_decompress;
use gitcore::objects::{Blob, Commit, File, GitObject, Id, NameEntry, Object, ObjectError, Repo,
    Tree};
use std::io::Read;

fn id_from_hex(s: &str) -> Id {
    Id::from(s.as_bytes()).unwrap()
}

#[test]
fn test_id_as_hex() {
    let id = Id { bytes: b"abababababababababac".to_vec() };
    assert_eq!(id.hex(), b"6162616261626162616261626162616261626163".to_vec());
    // checks for regression on a bug where there is incorrect padding on
    // encoded bytes
    let id = id_from_hex("94546d68dc6002b85cc2d7df077c7c6bb080abb0");
    assert_eq!(id.hex(), b"94546d68dc6002b85cc2d7df077c7c6bb080abb0".to_vec());
}

#[test]
fn test_id_from_rejects() {
    assert_eq!(Id::from(b"94546d68"), None);
    assert_eq!(Id::from(b"zz546d68dc6002b85cc2d7df077c7c6bb080abb0"), None);
    assert_eq!(Id::from(b"94546d68dc6002b85cc2d7df077c7c6bb080abb0a"), None);
}

#[test]
fn test_file_is() {
    let d = File {
        name: b"d".to_vec(),
        mode: 0o40000,
        id: Id { bytes: b"00000000000000000000".to_vec() },
    };
    let f = File {
        name: b"f".to_vec(),
        mode: 0o100644,
        id: Id { bytes: b"00000000000000000000".to_vec() },
    };

    assert!(d.is_dir());
    assert!(!f.is_dir());
}

#[test]
fn test_file_encoding() {
    let f = File {
        name: b"d".to_vec(),
        mode: 0o40000,
        id: Id { bytes: b"??\x1d_tbl?/?}7?Ar??\x1c\x7f?".to_vec() },
    };
    assert_eq!(f.encode(), b"40000 d\x00??\x1d_tbl?/?}7?Ar??\x1c\x7f?".to_vec());
}

#[test]
fn test_tree_parsing() {
    let tree = Tree::load(
        &b"40000 d\x00??\x1d_tbl?/?}7?Ar??\x1c\x7f?100644 \
hello.txt\x00?\x016%\x03\x0b???\x06?V?\x7f????FJ"
            .to_vec(),
    );
    assert_eq!(
        tree.unwrap(),
        Tree {
            files: vec![
                File {
                    name: b"d".to_vec(),
                    mode: 0o40000,
                    id: Id { bytes: b"??\x1d_tbl?/?}7?Ar??\x1c\x7f?".to_vec() },
                },
                File {
                    name: b"hello.txt".to_vec(),
                    mode: 0o100644,
                    id: Id { bytes: b"?\x016%\x03\x0b???\x06?V?\x7f????FJ".to_vec() },
                },
            ]
        }
    )
}

#[test]
fn test_tree_parse_errors() {
    // no space terminating the mode field
    assert_eq!(Tree::load(&b"40000".to_vec()), Err(ObjectError::TreeEntryMode));
    // bad octal digits in the mode field
    assert_eq!(Tree::load(&b"9q 00\x00".to_vec()), Err(ObjectError::TreeEntryMode));
    // no NUL terminating the name
    assert_eq!(Tree::load(&b"40000 d".to_vec()), Err(ObjectError::TreeEntryName));
    // truncated identifier
    assert_eq!(Tree::load(&b"40000 d\x00shortid".to_vec()), Err(ObjectError::TreeEntryId));
}

#[test]
fn test_load_parse_name_entry() {
    let entry = NameEntry {
        name: b"two names".to_vec(),
        email: b"email@example.com".to_vec(),
        secs: 946690200,
        tz_neg: true,
        tz_hh: 1,
        tz_mm: 30,
    };
    let entry_s = b"two names <email@example.com> 946690200 -0130".to_vec();
    assert_eq!(NameEntry::from(&entry_s).unwrap(), entry);
    assert_eq!(entry.encode(), entry_s);
}

#[test]
fn test_name_entry_rejects() {
    assert_eq!(NameEntry::from(&b"no brackets or times".to_vec()), None);
    assert_eq!(NameEntry::from(&b"a <e> 123 +2500".to_vec()), None);
    assert_eq!(NameEntry::from(&b"a <e> 12x +0000".to_vec()), None);
}

#[test]
fn test_commit_parse_encode() {
    let commit = b"tree 94546d68dc6002b85cc2d7df077c7c6bb080abb0\n\
parent d55912e4475329fde95d52d619abd413e4001d68\n\
parent d30826db9da3aebc9ab7fc095dd964920fc299bf\n\
author lf- <lf-@users.noreply.github.com> 1586391037 -0700\n\
committer lf- <lf-@users.noreply.github.com> 1586391037 -0700\n\n\
Merge branch 'branch2'\n"
        .to_vec();
    let decoded = Commit {
        tree: id_from_hex("94546d68dc6002b85cc2d7df077c7c6bb080abb0"),
        parents: vec![
            id_from_hex("d55912e4475329fde95d52d619abd413e4001d68"),
            id_from_hex("d30826db9da3aebc9ab7fc095dd964920fc299bf"),
        ],
        author: NameEntry::from(&b"lf- <lf-@users.noreply.github.com> 1586391037 -0700".to_vec())
            .unwrap(),
        committer: NameEntry::from(
            &b"lf- <lf-@users.noreply.github.com> 1586391037 -0700".to_vec(),
        )
        .unwrap(),
        message: b"Merge branch 'branch2'\n".to_vec(),
    };
    assert_eq!(Commit::load(&commit).unwrap(), decoded);
    assert_eq!(decoded.encode(), commit);
}

#[test]
fn test_commit_parse_errors() {
    assert_eq!(
        Commit::load(&b"author lf- <e> 1 +0000\n\nmsg".to_vec()),
        Err(ObjectError::MissingTree)
    );
    assert_eq!(
        Commit::load(&b"tree 94546d68dc6002b85cc2d7df077c7c6bb080abb0\n\nmsg".to_vec()),
        Err(ObjectError::MissingAuthor)
    );
    assert_eq!(Commit::load(&b"tree zz\n\nmsg".to_vec()), Err(ObjectError::Tree));
    assert_eq!(Commit::load(&b"nospace\n\nmsg".to_vec()), Err(ObjectError::Header));
    assert_eq!(
        Commit::load(&b"tree 94546d68dc6002b85cc2d7df077c7c6bb080abb0\n".to_vec()),
        Err(ObjectError::Eof)
    );
}

#[test]
fn test_commit_header_value_errors() {
    let good_id = "tree 94546d68dc6002b85cc2d7df077c7c6bb080abb0\n";
    let mut bad_parent = good_id.as_bytes().to_vec();
    bad_parent.extend_from_slice(b"parent zz\n\nmsg");
    assert_eq!(Commit::load(&bad_parent), Err(ObjectError::Parent));

    let mut bad_author = good_id.as_bytes().to_vec();
    bad_author.extend_from_slice(b"author nope\n\nmsg");
    assert_eq!(Commit::load(&bad_author), Err(ObjectError::Author));

    let mut bad_committer = good_id.as_bytes().to_vec();
    bad_committer.extend_from_slice(b"author a <e> 1 +0000\n");
    bad_committer.extend_from_slice(b"committer nope\n\nmsg");
    assert_eq!(Commit::load(&bad_committer), Err(ObjectError::Committer));

    let mut missing_committer = good_id.as_bytes().to_vec();
    missing_committer.extend_from_slice(b"author a <e> 1 +0000\n\nmsg");
    assert_eq!(Commit::load(&missing_committer), Err(ObjectError::MissingCommitter));
}

#[test]
fn test_name_entry_negative_seconds() {
    let s = b"a b <e@x> -5 +0230".to_vec();
    let ne = NameEntry::from(&s).unwrap();
    assert_eq!(ne.secs, -5);
    assert!(!ne.tz_neg);
    assert_eq!((ne.tz_hh, ne.tz_mm), (2, 30));
    assert_eq!(ne.encode(), s);
}

#[test]
fn test_object_encoding() {
    let decoded = Commit {
        tree: id_from_hex("94546d68dc6002b85cc2d7df077c7c6bb080abb0"),
        parents: vec![
            id_from_hex("d55912e4475329fde95d52d619abd413e4001d68"),
            id_from_hex("d30826db9da3aebc9ab7fc095dd964920fc299bf"),
        ],
        author: NameEntry::from(&b"lf- <lf-@users.noreply.github.com> 1586391037 -0700".to_vec())
            .unwrap(),
        committer: NameEntry::from(
            &b"lf- <lf-@users.noreply.github.com> 1586391037 -0700".to_vec(),
        )
        .unwrap(),
        message: b"Merge branch 'branch2'\n".to_vec(),
    };
    let (id, squished_content) = Object::prepare_store(&decoded);

    let mut unsquisher = flate2::read::ZlibDecoder::new(&squished_content[..]);
    let mut content = Vec::new();
    unsquisher.read_to_end(&mut content).unwrap();

    assert_eq!(id, id_from_hex("b1ea81dd8e9465cd9d2753d4bb3652d13c78312d"));
    assert_eq!(
        content,
        b"commit 287\x00tree 94546d68dc6002b85cc2d7df077c7c6bb080abb0\n\
parent d55912e4475329fde95d52d619abd413e4001d68\n\
parent d30826db9da3aebc9ab7fc095dd964920fc299bf\n\
author lf- <lf-@users.noreply.github.com> 1586391037 -0700\n\
committer lf- <lf-@users.noreply.github.com> 1586391037 -0700\n\nMerge branch 'branch2'\n"
            .to_vec()
    );
}

#[test]
fn test_object_parsing() {
    // tree
    let tree = b"tree 102\x0040000 d\x00??\x1d_tbl?/?}7?Ar??\x1c\x7f?100644 \
hello.txt\x00?\x016%\x03\x0b???\x06?V?\x7f????FJ100644 \
world.txt\x00?b??\x10t+??$\x1cY$??+\\\x01?q";
    assert_eq!(
        Object::parse(&tree.to_vec()).unwrap(),
        Object::Tree(Tree {
            files: vec![
                File {
                    name: b"d".to_vec(),
                    mode: 0o40000,
                    id: Id { bytes: b"??\x1d_tbl?/?}7?Ar??\x1c\x7f?".to_vec() },
                },
                File {
                    name: b"hello.txt".to_vec(),
                    mode: 0o100644,
                    id: Id { bytes: b"?\x016%\x03\x0b???\x06?V?\x7f????FJ".to_vec() },
                },
                File {
                    name: b"world.txt".to_vec(),
                    mode: 0o100644,
                    id: Id { bytes: b"?b??\x10t+??$\x1cY$??+\\\x01?q".to_vec() },
                },
            ]
        })
    );

    // blob
    let blob = b"blob 6\x00hello";
    assert_eq!(
        Object::parse(&blob.to_vec()).unwrap(),
        Object::Blob(Blob { content: b"hello".to_vec() })
    );

    // unsupported
    let sadface = b"sadface 1\x00";
    assert!(Object::parse(&sadface.to_vec()).is_err());
}

#[test]
fn test_blob_store() {
    // A stored blob's identifier is the SHA-1 of `blob 5\x00hello`.
    let blob = Blob::load(b"hello");
    let (id, _) = Object::prepare_store(&blob);
    assert_eq!(id, id_from_hex("b6fc4c620b67d95f953a5c1c1230aaab5db5a1b0"));
}

#[test]
fn test_tree_store_payload() {
    // A tree with one entry encodes as `100644 hello.txt\x00` + 20 raw bytes.
    let blob_id = id_from_hex("b6fc4c620b67d95f953a5c1c1230aaab5db5a1b0");
    let raw = blob_id.bytes.clone();
    let tree = Tree {
        files: vec![File { mode: 0o100644, name: b"hello.txt".to_vec(), id: blob_id }],
    };
    let mut expected = b"100644 hello.txt\x00".to_vec();
    expected.extend_from_slice(&raw);
    assert_eq!(tree.encode(), expected);
}

#[test]
fn test_object_store_round_trip() {
    // Storing and re-reading an object recovers it exactly, through the
    // compressed stored form.
    let blob = Blob::load(b"some file content\n");
    let (id, squished) = Object::prepare_store(&blob);
    let preimage = zlib_decompress(&squished).unwrap();
    let parsed = Object::parse(&preimage).unwrap();
    assert_eq!(parsed, Object::Blob(Blob { content: b"some file content\n".to_vec() }));
    assert_eq!(id.bytes.len(), 20);
}

#[test]
fn test_path_for_object() {
    let repo = Repo { root: b"/path/to/root/.git".to_vec() };
    assert_eq!(
        repo.path_for_object(&id_from_hex("0096cfbd9d1001af3731d9ab5de79450fe031719")),
        b"/path/to/root/.git/objects/00/96cfbd9d1001af3731d9ab5de79450fe031719".to_vec()
    );
    assert_eq!(repo.head_path(), b"/path/to/root/.git/HEAD".to_vec());
}
