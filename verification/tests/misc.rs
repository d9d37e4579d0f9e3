use refer::error::ReferError;
use refer::key::{Index, Key};
use refer::edge::Side;
use refer::entity;
use refer::permit::{ComplexOwnership, Mut, Slot, Split, SplitOwnership};

#[test]
fn side_flips() {
    assert_eq!(!Side::Source, Side::Drain);
    assert_eq!(!Side::Drain, Side::Source);
    assert_eq!(!!Side::Drain, Side::Drain);
}

#[test]
fn partial_edge_reverses_and_maps() {
    let edge = Side::Source.object(3u32);
    assert_eq!(edge.subject, Side::Source);
    let mapped = edge.map(|x| x * 2);
    assert_eq!(mapped.object, 6);
    let reversed = mapped.reverse("other");
    assert_eq!(reversed.subject, Side::Drain);
    assert_eq!(reversed.object, "other");
}

#[test]
fn entity_sides_differ() {
    assert_ne!(entity::Side::Source, entity::Side::Drain);
}

#[test]
fn complex_ownership_hands_out_each_type_once() {
    let container = vec![1u8, 2, 3];
    let mut ownership: ComplexOwnership<'_, Slot, Vec<u8>> = ComplexOwnership::new(&container);
    assert!(ownership.split_off::<u32>().is_some());
    assert!(ownership.split_off::<u32>().is_none());
    assert!(ownership.split_off::<u64>().is_some());
    assert!(ownership.split_off::<u64>().is_none());
}

#[test]
fn permits_split_and_borrow() {
    let container = 7u32;
    let mut split: SplitOwnership<'_, Slot, u32> = SplitOwnership::new(&container);
    let permit = split.get_mut();
    let halves = permit.split();
    let _item = halves.item;
    let _shell = halves.shell;
    let complex = split.complex();
    let mut complex = complex;
    let mut typed = complex.split_off::<u8>().unwrap();
    let _read = typed.borrow();
    let _write: refer::permit::Permit<'_, Mut, u8, Slot, u32> = typed.borrow_mut();
}

#[test]
fn split_maps_both_halves() {
    let split = Split::new(2u32, "shell");
    let mapped = split.map(|i| i + 1, |s| s.len());
    assert_eq!(mapped.item, 3);
    assert_eq!(mapped.shell, 5);
}

#[test]
fn out_of_keys_records_the_locality_as_text() {
    match ReferError::out_of_keys::<u8>(42) {
        ReferError::OutOfKeys { locality, .. } => assert_eq!(locality, "42"),
        _ => panic!("wrong error"),
    }
}

#[test]
fn invalid_key_message_names_type_index_and_container() {
    let key: Key<u8> = Key::new(Index::new(5).unwrap());
    let e = ReferError::invalid_key(key, 7);
    let ty = format!("{:?}", std::any::TypeId::of::<u8>());
    assert_eq!(e.message(), format!("Item on key {}#5 doesn't exist in container 7.", ty));
}

#[test]
fn out_of_keys_message_names_the_locality() {
    let e = ReferError::out_of_keys::<u16>(3);
    let ty = format!("{:?}", std::any::TypeId::of::<u16>());
    assert_eq!(e.message(), format!("Collection for type {} and locality 3 is full.", ty));
}

#[test]
fn invalid_operation_message_quotes_the_operation() {
    let key: Key<u32> = Key::new(Index::new(9).unwrap());
    let e = ReferError::invalid_op(key, "remove");
    let ty = format!("{:?}", std::any::TypeId::of::<u32>());
    assert_eq!(e.message(), format!("Item for key {}#9 doesn't support operation 'remove'.", ty));
    let d = ReferError::not_drain(key);
    assert_eq!(d.message(), format!("Item on key {}#9 is not drain.", ty));
}
