//! Tests for the reference resolver.

use gitcore::objects::Id;
use gitcore::rev::{find_refname, is_valid_refname, is_valid_sha1, parse, parse_ref_content,
    update_ref, RefContent, RefStore, RevError};

fn id_from_hex(s: &str) -> Id {
    Id::from(s.as_bytes()).unwrap()
}

const AAAA: &str = "aaaaaaaaaaaaaaaaaaaaaaaaaaaaaaaaaaaaaaaa";

#[test]
fn test_validate_refname() {
    let expected_responses: [(&[u8], bool); 10] = [
        (b"abc", false),
        (b"a/c", true),
        (b"a//b", false),
        (b"a/", false),
        (b"a/../b", false),
        (b"a/.a/b", false),
        (b"a/a.lock/b", false),
        (b"a\x01/b", false),
        (b"a/a?a/b", false),
        (b"ab@{c", false),
    ];

    for (inp, expect) in expected_responses.iter() {
        assert_eq!(is_valid_refname(&inp.to_vec(), false), *expect);
    }
    assert_eq!(is_valid_refname(&b"abc".to_vec(), true), true);
}

#[test]
fn test_valid_sha1() {
    assert!(is_valid_sha1(&b"abcd".to_vec()));
    assert!(is_valid_sha1(&AAAA.as_bytes().to_vec()));
    assert!(!is_valid_sha1(&b"abc".to_vec()));
    assert!(!is_valid_sha1(&b"abcg".to_vec()));
}

#[test]
fn test_parse_ref_content() {
    assert_eq!(
        parse_ref_content(&b"ref: refs/heads/main\n".to_vec()),
        Some(RefContent::Symref(b"refs/heads/main".to_vec()))
    );
    let aaaa = format!("{}\n", AAAA).into_bytes();
    assert_eq!(parse_ref_content(&aaaa), Some(RefContent::Id(id_from_hex(AAAA))));
    assert_eq!(parse_ref_content(&b"not an id".to_vec()), None);
}

fn store_with_main() -> RefStore {
    RefStore {
        files: vec![(b"refs/heads/main".to_vec(), format!("{}\n", AAAA).into_bytes())],
    }
}

#[test]
fn test_ref_lookup() {
    // A branch resolves by its short name and by its full path, to the same
    // identifier.
    let store = store_with_main();
    let a = parse(&b"main".to_vec(), None, &store).unwrap();
    let b = parse(&b"refs/heads/main".to_vec(), None, &store).unwrap();
    assert_eq!(a, id_from_hex(AAAA));
    assert_eq!(a, b);

    // A symref in HEAD is chased.
    let mut store2 = store_with_main();
    store2.files.push((b"HEAD".to_vec(), b"ref: refs/heads/main".to_vec()));
    assert_eq!(parse(&b"HEAD".to_vec(), None, &store2).unwrap(), id_from_hex(AAAA));

    // A literal identifier in HEAD resolves as itself.
    let store3 = RefStore { files: vec![(b"HEAD".to_vec(), AAAA.as_bytes().to_vec())] };
    assert_eq!(parse(&b"HEAD".to_vec(), None, &store3).unwrap(), id_from_hex(AAAA));

    // `@` reads HEAD.
    assert_eq!(parse(&b"@".to_vec(), None, &store3).unwrap(), id_from_hex(AAAA));
}

#[test]
fn test_symref_not_followed_outside_head() {
    // A symref found under any other name is not chased.
    let mut store = store_with_main();
    store.files.push((b"refs/heads/alias".to_vec(), b"ref: refs/heads/main".to_vec()));
    assert_eq!(
        parse(&b"alias".to_vec(), None, &store),
        Err(RevError::Dangling(b"alias".to_vec()))
    );
    assert_eq!(find_refname(&b"alias".to_vec(), &store, true), None);
}

#[test]
fn test_remotes_head_fallback() {
    let store = RefStore {
        files: vec![(b"refs/remotes/origin/HEAD".to_vec(), AAAA.as_bytes().to_vec())],
    };
    assert_eq!(parse(&b"origin".to_vec(), None, &store).unwrap(), id_from_hex(AAAA));
}

#[test]
fn test_prefix_lookup() {
    // A unique prefix resolves to the full identifier (the listing holds
    // the 38-character names of the fan-out directory).
    let store = RefStore { files: Vec::new() };
    let listing = vec![b"cd111111111111111111111111111111111111".to_vec()];
    let full = "abcd111111111111111111111111111111111111";
    assert_eq!(parse(&b"abcd".to_vec(), Some(&listing), &store).unwrap(), id_from_hex(full));

    // A full 40-digit identifier of an existing object resolves to itself.
    assert_eq!(
        parse(&full.as_bytes().to_vec(), Some(&listing), &store).unwrap(),
        id_from_hex(full)
    );
}

#[test]
fn test_ambiguous_prefix() {
    // Two objects whose identifiers both begin with the prefix.
    let store = RefStore { files: Vec::new() };
    let listing = vec![
        b"cd111111111111111111111111111111111111".to_vec(),
        b"cd222222222222222222222222222222222222".to_vec(),
    ];
    assert_eq!(
        parse(&b"abcd".to_vec(), Some(&listing), &store),
        Err(RevError::Ambiguous(b"abcd".to_vec()))
    );
}

#[test]
fn test_parse_rejects_invalid_names() {
    let store = store_with_main();
    assert_eq!(
        parse(&b"a..b".to_vec(), None, &store),
        Err(RevError::Invalid(b"a..b".to_vec()))
    );
    assert_eq!(
        update_ref(&b"a..b".to_vec(), None, &vec![false; 6]),
        Err(RevError::Invalid(b"a..b".to_vec()))
    );
}

#[test]
fn test_parse_dangling() {
    let store = store_with_main();
    assert_eq!(
        parse(&b"missing".to_vec(), None, &store),
        Err(RevError::Dangling(b"missing".to_vec()))
    );
}

#[test]
fn test_update_ref_plan() {
    // A fresh ref is created at the target path itself.
    assert_eq!(
        update_ref(&b"refs/heads/topic".to_vec(), None, &vec![false; 6]).unwrap(),
        b"refs/heads/topic".to_vec()
    );
    // An existing location is overwritten; the first match wins.
    let mut existing = vec![false; 6];
    existing[3] = true;
    assert_eq!(
        update_ref(&b"topic".to_vec(), None, &existing).unwrap(),
        b"refs/heads/topic".to_vec()
    );
    // Updating HEAD with a symref in it redirects to the target.
    let head = b"ref: refs/heads/main".to_vec();
    assert_eq!(
        update_ref(&b"HEAD".to_vec(), Some(&head), &vec![false; 6]).unwrap(),
        b"refs/heads/main".to_vec()
    );
    // Updating HEAD holding a literal identifier writes HEAD itself.
    let head2 = AAAA.as_bytes().to_vec();
    let mut existing0 = vec![false; 6];
    existing0[0] = true;
    assert_eq!(
        update_ref(&b"HEAD".to_vec(), Some(&head2), &existing0).unwrap(),
        b"HEAD".to_vec()
    );
}
