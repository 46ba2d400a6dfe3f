use scenic::expanding_vec::ExpandingVector;

#[test]
pub fn test_expanding_vec() {
    let mut v = ExpandingVector::new();

    v.set(0, Some(9));

    assert_eq!(Some(9), v.get(0));
    assert_eq!(None, v.get(1));
    assert_eq!(None, v.get(2));
    assert_eq!(None, v.get(2000));

    v.set(1, Some(5));
    assert_eq!(Some(9), v.get(0));
    assert_eq!(Some(5), v.get(1));
    assert_eq!(None, v.get(2000));

    v.set(3, Some(8));
    assert_eq!(Some(9), v.get(0));
    assert_eq!(Some(5), v.get(1));
    assert_eq!(Some(8), v.get(3));
}

#[test]
fn test_overwrite_and_clear() {
    let mut v: ExpandingVector<u32> = ExpandingVector::new();
    v.set(0, Some(1));
    v.set(0, Some(2));
    assert_eq!(Some(2), v.get(0));
    v.set(0, None);
    assert_eq!(None, v.get(0));
}
