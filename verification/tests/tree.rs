//! Tests for tree composition, flattening, walking, and list diffing.

use gitcore::index::IndexEntry;
use gitcore::objects::{GitObject, Id, Object, Tree};
use gitcore::tree::{diff_file_lists, index_to_tree, load_tree_from_disk, save_subtree,
    save_subtree_to_disk, split_path, Diff, SubTree, TreeEntry, TreeError};
use sha1::Digest;

fn id_from_hex(s: &str) -> Id {
    Id::from(s.as_bytes()).unwrap()
}

fn entry(name: &[u8], id: &str) -> IndexEntry {
    IndexEntry {
        name: name.to_vec(),
        meta: gitcore::index::IndexMeta {
            ctime: 0.into(),
            ctime_ns: 0.into(),
            mtime: 0.into(),
            mtime_ns: 0.into(),
            dev: 0.into(),
            ino: 0.into(),
            mode: 0x81a4.into(),
            uid: 0.into(),
            gid: 0.into(),
            size: 0.into(),
            id: id_from_hex(id),
            flags: (name.len() as u16).into(),
        },
    }
}

#[test]
fn test_tree_comparison() {
    let mut tree1: Vec<(Vec<u8>, Id)> = Vec::new();
    let mut tree2: Vec<(Vec<u8>, Id)> = Vec::new();

    let id1 = id_from_hex("0000000000000000000000000000000000000000");
    let id2 = id_from_hex("ffffffffffffffffffffffffffffffffffffffff");

    tree1.push((b"a".to_vec(), id1.clone()));
    tree2.push((b"a".to_vec(), id2.clone()));
    let identical = tree1.clone();
    let diffs = diff_file_lists(&tree1, &identical);

    // identical trees should not have any diff output
    assert_eq!(diffs.len(), 0);

    let diffs = diff_file_lists(&tree1, &tree2);

    // 'a' should be different
    assert_eq!(diffs, vec![(b"a".to_vec(), Diff::Different(id1.clone(), id2.clone()))]);

    // an extra item in left
    tree1.push((b"b".to_vec(), id1.clone()));
    let diffs = diff_file_lists(&tree1, &tree2);
    assert_eq!(
        diffs,
        vec![
            (b"a".to_vec(), Diff::Different(id1.clone(), id2.clone())),
            (b"b".to_vec(), Diff::ExtraInLeft(id1.clone())),
        ]
    );

    // test fast-forward advance
    tree1.push((b"aa".to_vec(), id1.clone()));
    tree2.push((b"b".to_vec(), id2.clone()));

    // we only accept sorted trees
    tree1.sort_by(|x, y| x.0.cmp(&y.0));
    let diffs = diff_file_lists(&tree1, &tree2);
    assert_eq!(
        diffs,
        vec![
            (b"a".to_vec(), Diff::Different(id1.clone(), id2.clone())),
            (b"aa".to_vec(), Diff::ExtraInLeft(id1.clone())),
            (b"b".to_vec(), Diff::Different(id1.clone(), id2.clone())),
        ]
    );
}

#[test]
fn test_split_path() {
    let parts = split_path(&b"a/b/c".to_vec());
    assert_eq!(parts, vec![b"a".to_vec(), b"b".to_vec(), b"c".to_vec()]);
    assert_eq!(split_path(&b"plain".to_vec()), vec![b"plain".to_vec()]);
    assert_eq!(split_path(&b"a//b".to_vec()), vec![b"a".to_vec(), b"".to_vec(), b"b".to_vec()]);
}

#[test]
fn test_compose_single_file_matches_stored_tree() {
    // Composing one staged file gives the tree object whose payload is
    // `100644 hello.txt NUL <raw id>`, stored under its SHA-1.
    let blob_hex = "b6fc4c620b67d95f953a5c1c1230aaab5db5a1b0";
    let index = vec![entry(b"hello.txt", blob_hex)];
    let st = index_to_tree(&index).unwrap();
    let root = TreeEntry::SubTree(st);
    let mut out = Vec::new();
    let root_id = save_subtree(&root, &mut out);

    let mut payload = b"100644 hello.txt\x00".to_vec();
    payload.extend_from_slice(&id_from_hex(blob_hex).bytes);
    let mut preimage = format!("tree {}\x00", payload.len()).into_bytes();
    preimage.extend_from_slice(&payload);
    let digest = sha1::Sha1::digest(&preimage);
    assert_eq!(&root_id.bytes[..], &digest[..]);

    // One object was emitted, addressed by the same identifier.
    assert_eq!(out.len(), 1);
    assert_eq!(out[0].0, root_id);
}

#[test]
fn test_compose_deterministic() {
    // Composing the same paths twice yields the same root identifier.
    let index = vec![
        entry(b"dir/item", "c2801012ebf8905049b7555a8e1a32fb2df68a8f"),
        entry(b"file2", "107f41d5f9e9ea48ff6a312917c9bb029cf9d2b6"),
    ];
    let mut out1 = Vec::new();
    let r1 = save_subtree(&TreeEntry::SubTree(index_to_tree(&index).unwrap()), &mut out1);
    let mut out2 = Vec::new();
    let r2 = save_subtree(&TreeEntry::SubTree(index_to_tree(&index).unwrap()), &mut out2);
    assert_eq!(r1, r2);
    // The nested level is stored before its parent.
    assert_eq!(out1.len(), 2);
}

#[test]
fn test_compose_canonical_order() {
    // Directory names collate with a trailing slash: `a.c` sorts before the
    // directory `a`, although plain byte order says otherwise.
    let index = vec![
        entry(b"a.c", "0000000000000000000000000000000000000001"),
        entry(b"a/x", "0000000000000000000000000000000000000002"),
    ];
    let st = index_to_tree(&index).unwrap();
    assert_eq!(st.entries.len(), 2);
    assert_eq!(st.entries[0].0, b"a.c".to_vec());
    assert_eq!(st.entries[1].0, b"a".to_vec());
}

#[test]
fn test_compose_collisions() {
    // A file landing on an existing directory is a collision.
    let index = vec![
        entry(b"a/x", "0000000000000000000000000000000000000001"),
        entry(b"a", "0000000000000000000000000000000000000002"),
    ];
    assert_eq!(index_to_tree(&index), Err(TreeError::Collision));

    // Walking through an existing file is a collision too.
    let index = vec![
        entry(b"a", "0000000000000000000000000000000000000001"),
        entry(b"a/x", "0000000000000000000000000000000000000002"),
    ];
    assert_eq!(index_to_tree(&index), Err(TreeError::Collision));

    // Empty components are rejected.
    let index = vec![entry(b"a//b", "0000000000000000000000000000000000000001")];
    assert_eq!(index_to_tree(&index), Err(TreeError::EmptyComponent));
}

#[test]
fn test_subtree_accessors() {
    let mut st = TreeEntry::SubTree(SubTree { entries: Vec::new() });
    assert!(st.subtree().is_some());
    assert!(st.subtree_mut().is_some());
    let mut blob = TreeEntry::Blob(id_from_hex("0000000000000000000000000000000000000001"));
    assert!(blob.subtree().is_none());
    assert!(blob.subtree_mut().is_none());
    let (id, mode) = blob.perms();
    assert_eq!(id, id_from_hex("0000000000000000000000000000000000000001"));
    assert_eq!(mode, 0o100644);
    let tree = TreeEntry::Tree(id_from_hex("0000000000000000000000000000000000000002"));
    assert_eq!(tree.perms().1, 0o040000);
}

#[test]
fn test_walk_tree() {
    // Flatten a nested tree back into a path-keyed list through a store.
    let index = vec![
        entry(b"dir/item", "c2801012ebf8905049b7555a8e1a32fb2df68a8f"),
        entry(b"file2", "107f41d5f9e9ea48ff6a312917c9bb029cf9d2b6"),
    ];
    let mut out = Vec::new();
    let root_id = save_subtree(&TreeEntry::SubTree(index_to_tree(&index).unwrap()), &mut out);

    // Re-parse every emitted object into a store of trees.
    let mut store: Vec<(Id, Tree)> = Vec::new();
    for (id, z) in &out {
        let pre = gitcore::hash::zlib_decompress(z).unwrap();
        match Object::parse(&pre).unwrap() {
            Object::Tree(t) => store.push((id.clone(), t)),
            _ => panic!("expected a tree object"),
        }
    }
    let root = store.iter().find(|(id, _)| *id == root_id).unwrap().1.clone();

    let mut filelist: Vec<(Vec<u8>, Id)> = Vec::new();
    load_tree_from_disk(&root, &store, &b"".to_vec(), &mut filelist, 16).unwrap();
    assert_eq!(
        filelist,
        vec![
            (b"dir/item".to_vec(), id_from_hex("c2801012ebf8905049b7555a8e1a32fb2df68a8f")),
            (b"file2".to_vec(), id_from_hex("107f41d5f9e9ea48ff6a312917c9bb029cf9d2b6")),
        ]
    );

    // A dangling identifier is reported.
    let dangling = Tree {
        files: vec![gitcore::objects::File {
            mode: 0o040000,
            name: b"sub".to_vec(),
            id: id_from_hex("00000000000000000000000000000000000000aa"),
        }],
    };
    let mut filelist2: Vec<(Vec<u8>, Id)> = Vec::new();
    assert_eq!(
        load_tree_from_disk(&dangling, &store, &b"".to_vec(), &mut filelist2, 16),
        Err(TreeError::BadId(id_from_hex("00000000000000000000000000000000000000aa")))
    );
}

#[test]
fn test_walk_depth_bound() {
    // A self-referential store exhausts the nesting bound.
    let id = id_from_hex("00000000000000000000000000000000000000bb");
    let looping = Tree {
        files: vec![gitcore::objects::File {
            mode: 0o040000,
            name: b"loop".to_vec(),
            id: id.clone(),
        }],
    };
    let store = vec![(id, looping.clone())];
    let mut filelist: Vec<(Vec<u8>, Id)> = Vec::new();
    assert_eq!(
        load_tree_from_disk(&looping, &store, &b"".to_vec(), &mut filelist, 4),
        Err(TreeError::TooDeep)
    );
}

#[test]
fn test_save_flat_level() {
    let st = SubTree {
        entries: vec![(
            b"hello.txt".to_vec(),
            TreeEntry::Blob(id_from_hex("b6fc4c620b67d95f953a5c1c1230aaab5db5a1b0")),
        )],
    };
    let mut out = Vec::new();
    let id = save_subtree_to_disk(&st, &mut out);
    assert_eq!(out.len(), 1);
    assert_eq!(out[0].0, id);
    let pre = gitcore::hash::zlib_decompress(&out[0].1).unwrap();
    let mut expected = b"tree 37\x00100644 hello.txt\x00".to_vec();
    expected.extend_from_slice(&id_from_hex("b6fc4c620b67d95f953a5c1c1230aaab5db5a1b0").bytes);
    assert_eq!(pre, expected);
    let digest = sha1::Sha1::digest(&pre);
    assert_eq!(&id.bytes[..], &digest[..]);
}
