//! Tests for negative indexing.

use gitcore::diff::NegIndex;

#[test]
fn test_nindex() {
    let v = vec![1, 2, 3, 4];
    assert_eq!(*v.nindex(-1), 4);
    assert_eq!(*v.nindex(-2), 3);
    assert_eq!(*v.nindex(0), 1);
}

#[test]
fn test_nindex_mut() {
    let mut v = vec![1, 2, 3, 4];
    *v.nindex_mut(-1) = 9;
    *v.nindex_mut(1) = 7;
    assert_eq!(v, vec![1, 7, 3, 9]);
}
