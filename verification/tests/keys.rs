use std::any::TypeId;
use refer::allocator::ReservedKey;
use refer::key::{DeltaKey, Index, Key, SubKey};

#[test]
fn index_is_never_zero() {
    assert!(Index::new(0).is_none());
    assert_eq!(Index::new(5).unwrap().get(), 5);
}

#[test]
fn index_lengths() {
    let i = Index::new(0b1011).unwrap();
    assert_eq!(i.len_low(), 4);
    assert_eq!(Index::new(8).unwrap().len_high(), 61);
    assert_eq!(Index::new(1 << 63).unwrap().len_low(), 64);
    assert_eq!(Index::new(1 << 63).unwrap().len_high(), 1);
}

#[test]
fn suffix_round_trip() {
    let x = Index::new(0b101).unwrap();
    let s = Index::new(0b011).unwrap();
    let joined = x.with_suffix(3, s);
    assert_eq!(joined.get(), 0b101_011);
    let (prefix, suffix) = joined.split_suffix(3);
    assert_eq!(prefix.get(), 0b101);
    assert_eq!(suffix.get(), 0b011);
}

#[test]
fn prefix_round_trip() {
    let x = Index::new(1 << 63).unwrap();
    let p = Index::new(0b11).unwrap();
    let joined = x.with_prefix(2, p);
    assert_eq!(joined.get(), 0b111 << 61);
    let (prefix, suffix) = joined.split_prefix(2);
    assert_eq!(prefix.get(), 0b11);
    assert_eq!(suffix.get(), 1 << 63);
}

#[test]
fn split_prefix_try_of_a_bare_prefix() {
    let only_prefix = Index::new(0b10 << 62).unwrap();
    let (prefix, suffix) = only_prefix.split_prefix_try(2);
    assert_eq!(prefix.get(), 0b10);
    assert!(suffix.is_none());
}

#[test]
fn sub_key_keeps_its_index() {
    let key = SubKey::<u32>::new(8, Index::new(5).unwrap());
    assert_eq!(key.index(8).get(), 5);
    assert_eq!(key.as_usize(8), 5);
    assert_eq!(key.into_key().index().get(), 5 << 56);
}

#[test]
fn reserved_key_hands_its_key_back() {
    let key = SubKey::<u32>::new(8, Index::new(9).unwrap());
    let reserved = ReservedKey::new(key);
    assert_eq!(reserved.key().index(8).get(), 9);
    assert_eq!(reserved.take().index(8).get(), 9);
}

#[test]
fn key_and_delta() {
    let key = Key::<u32>::new(Index::new(40).unwrap());
    assert_eq!(key.as_usize(), 40);
    assert_eq!(key.len(), 6);
    let delta = key - Index::new(8).unwrap();
    assert_eq!(delta.delta(), 32);
    let back: Key<u32> = delta + Index::new(8).unwrap();
    assert_eq!(back.index().get(), 40);
    assert_eq!(DeltaKey::<u32>::new(7).delta(), 7);
}

#[test]
fn keys_compare_by_index() {
    let a = Key::<u32>::new(Index::new(3).unwrap());
    let b = Key::<u32>::new(Index::new(3).unwrap());
    let c = Key::<u32>::new(Index::new(4).unwrap());
    assert!(a == b);
    assert!(a != c);
}

#[test]
fn any_key_downcasts_to_its_type_only() {
    let key = Key::<u32>::new(Index::new(12).unwrap());
    let any = key.upcast();
    assert_eq!(any.index().get(), 12);
    assert!(any.downcast::<u32>().is_some());
    assert!(any.downcast::<u64>().is_none());
}

#[test]
fn any_key_downcasts_with_the_identifier_of_its_type_only() {
    let any = Key::<u32>::new(Index::new(9).unwrap()).upcast();
    assert_eq!(any.downcast_with::<u32>(TypeId::of::<u32>()).map(|k| k.index().get()), Some(9));
    assert!(any.downcast_with::<u32>(TypeId::of::<u64>()).is_none());
}

#[test]
fn prefixing_a_sub_key_suffixes_its_index() {
    let s = Index::new(1).unwrap();
    let p = Index::new(5).unwrap();
    let key = SubKey::<u8>::new(2, s).with_prefix(3, p);
    assert_eq!(key.index(5).get(), 0b10101);
    assert_eq!(p.with_suffix(2, s).get(), 0b10101);
}

#[test]
fn splitting_a_pushed_prefix_gives_it_back() {
    let s = Index::new(1).unwrap();
    let p = Index::new(5).unwrap();
    let key = SubKey::<u8>::new(2, s).with_prefix(3, p);
    let (q, rest) = key.split_prefix(3);
    assert_eq!(q.get(), 5);
    assert_eq!(rest.index(2).get(), 1);
}
