use ecow::EcoVec;

#[test]
fn vec_push_and_len() {
    let mut v: EcoVec<u32> = EcoVec::new();
    assert!(v.is_empty());
    v.push(1);
    v.push(2);
    assert_eq!(v.len(), 2);
    assert_eq!(v.as_slice(), &[1, 2]);
}

#[test]
fn vec_clone_on_write() {
    let mut a: EcoVec<u8> = EcoVec::with_capacity(4);
    a.extend_from_slice(&[1, 2, 3]);
    let mut b = a.clone();
    b.push(4);
    assert_eq!(a.as_slice(), &[1, 2, 3]);
    assert_eq!(b.as_slice(), &[1, 2, 3, 4]);
    let mut c = a.clone();
    c.truncate(1);
    assert_eq!(c.as_slice(), &[1]);
    assert_eq!(a.as_slice(), &[1, 2, 3]);
    let mut d = a.clone();
    d.clear();
    assert!(d.is_empty());
    assert_eq!(a.len(), 3);
}

#[test]
fn vec_truncate_longer_is_noop() {
    let mut v: EcoVec<i64> = EcoVec::new();
    v.extend_from_slice(&[5, 6]);
    v.truncate(10);
    assert_eq!(v.as_slice(), &[5, 6]);
    v.truncate(2);
    assert_eq!(v.as_slice(), &[5, 6]);
    v.truncate(0);
    assert!(v.is_empty());
}

#[test]
fn vec_with_capacity_zero() {
    let mut v: EcoVec<u8> = EcoVec::with_capacity(0);
    assert_eq!(v.len(), 0);
    v.extend_from_slice(&[]);
    assert!(v.is_empty());
    v.extend_from_slice(b"xyz");
    assert_eq!(v.as_slice(), b"xyz");
}
