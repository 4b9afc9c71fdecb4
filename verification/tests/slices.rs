use lsmkv::db::ldbslice::Slice;
use lsmkv::slice::Slice as ByteSlice;
use std::cmp::Ordering;

#[test]
fn test_to_string() {
    assert_eq!(Slice::from("hello").to_string(), String::from("hello"));
    assert_eq!(
        Slice::from(String::from("hello")).to_string(),
        String::from("hello")
    );
}

#[test]
fn test_ord() {
    assert_eq!(
        Slice::from(String::from("hello")) == Slice::from("hello"),
        true
    );
    assert!(Slice::from("4") > Slice::from(3.to_string()));
    assert!(Slice::from("abb") < Slice::from("cc"));
}

#[test]
fn tests_remove_prefix() {
    assert!(Slice::from("hello").remove_prefix(4) == Slice::from("o"));
    assert!(Slice::from("hello").remove_prefix(5) == Slice::New());
}

#[test]
fn ldbslice_test_index() {
    assert!(Slice::from("hello").at(1) == 'e' as u8);
    assert!(Slice::from("hello").at(2) == 'l' as u8);
}

#[test]
fn test_owned_slice_operations() {
    let mut s = Slice::from(vec![1u8, 2, 3]);
    assert_eq!(s.size(), 3);
    assert!(!s.is_empty());
    assert!(s.starts_with(&Slice::from(vec![1u8, 2])));
    assert!(s.starts_with(&Slice::New()));
    assert!(!s.starts_with(&Slice::from(vec![2u8])));
    assert!(!s.starts_with(&Slice::from(vec![1u8, 2, 3, 4])));
    s.set(0, 9);
    assert_eq!(s.data(), &[9, 2, 3]);
    s.clear();
    assert!(s.is_empty());
}

#[test]
fn test_from_string() {
    let s = String::from("fuck");
    let slice = ByteSlice::from(s);
    assert_eq!(slice.to_string(), String::from("fuck"));
}

#[test]
fn slice_test_index() {
    let s = String::from("fuck");
    let slice = ByteSlice::from(s.as_str());
    assert_eq!(slice.at(1) as char, 'u');
}

#[test]
fn test_from_str() {
    let s = ByteSlice::from("fuck");
    assert_eq!(s.to_string(), "fuck");
}

#[test]
fn test_cmp() {
    let s1 = ByteSlice::from("fuck");
    let s2 = ByteSlice::from("fuck");
    let s3 = ByteSlice::from("f");
    let s4 = ByteSlice::from("fuck you");
    let s5 = ByteSlice::from("guck");
    let s6 = ByteSlice::from("c");
    assert!(s1 == s2);
    assert_eq!(s1.compare(&s3), Ordering::Greater);
    assert_eq!(s1.compare(&s4), Ordering::Less);
    assert_eq!(s1.compare(&s5), Ordering::Less);
    assert_eq!(s1.compare(&s6), Ordering::Greater);
}

#[test]
fn test_byte_slice_operations() {
    let mut s = ByteSlice::new(b"hello world", 5);
    assert_eq!(s.data(), b"hello");
    assert_eq!(s.raw_data(), b"hello");
    assert_eq!(s.size(), 5);
    assert!(s.strat_with(&ByteSlice::from("he")));
    assert!(!s.strat_with(&ByteSlice::from("lo")));
    s.remove_prefix(2);
    assert_eq!(s.data(), b"llo");
    s.clear();
    assert_eq!(s.size(), 0);
    assert_eq!(ByteSlice::new_empty().size(), 0);
    assert_eq!(ByteSlice::new_empty().compare(&s), Ordering::Equal);
}
