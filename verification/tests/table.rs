use refer::key::SubKey;
use refer::table::{TableContainer, MAX_TABLE_SIZE};

/// Slots of a full table of `usize` items with no shell data, as the table
/// layout gives them: what is left of a table once its bitmap is taken out,
/// divided by the size of a slot.
fn slots_len() -> usize {
    let slot_size = std::mem::size_of::<std::mem::MaybeUninit<(usize, ())>>();
    let max_slots = MAX_TABLE_SIZE / slot_size;
    let taken_len = max_slots.div_ceil(64);
    let taken_size = std::mem::size_of::<u64>() * taken_len;
    let padding = std::mem::align_of::<std::mem::MaybeUninit<(usize, ())>>()
        .saturating_sub(std::mem::align_of::<u64>());
    (MAX_TABLE_SIZE - taken_size - padding) / slot_size
}

fn add(container: &mut TableContainer<usize>, item: usize) -> Option<SubKey<usize>> {
    let reserved = container.reserve()?;
    Some(container.fulfill(reserved, item))
}

fn raw(key: &SubKey<usize>) -> u64 {
    key.into_key().index().get()
}

#[test]
fn table_add_items() {
    let n = 20;
    let mut container = TableContainer::<usize>::new(64, slots_len());

    let keys = (0..n)
        .map(|i| add(&mut container, i).unwrap())
        .collect::<Vec<_>>();

    for (i, key) in keys.iter().enumerate() {
        assert_eq!(*container.get(key).unwrap(), i);
    }
}

#[test]
fn reserve_cancel() {
    let mut container = TableContainer::<usize>::new(1, slots_len());

    let key = container.reserve().unwrap();
    assert!(container.reserve().is_none());

    container.cancel(key);
    assert!(container.reserve().is_some());
}

#[test]
fn add_unfill() {
    let mut container = TableContainer::<usize>::new(10, slots_len());

    let item = 42;
    let key = add(&mut container, item).unwrap();

    assert_eq!(container.get(&key), Some(&item));
    assert_eq!(container.unfill(&key), Some(item));
    assert!(container.get(&key).is_none());
}

#[test]
fn table_iter() {
    let n = 20;
    let mut container = TableContainer::<usize>::new(10, slots_len());

    let mut keys = (0..n)
        .map(|i| (raw(&add(&mut container, i).unwrap()), i))
        .collect::<Vec<_>>();

    keys.sort();

    let mut items = Vec::new();
    let mut cursor = container.first();
    while let Some(key) = cursor {
        items.push((raw(&key), *container.get(&key).unwrap()));
        cursor = container.next(&key);
    }

    assert_eq!(keys, items);
}

#[test]
fn table_get_any() {
    let mut container = TableContainer::<usize>::new(10, slots_len());

    let item = 42;
    let key = add(&mut container, item).unwrap();

    assert_eq!(container.get(&key), Some(&item));
}

#[test]
fn table_unfill_any() {
    let mut container = TableContainer::<usize>::new(10, slots_len());

    let item = 42;
    let key = container.reserve().unwrap();
    let key = container.fulfill(key, item);

    container.unfill(&key);
    assert!(container.get(&key).is_none());
}

#[test]
fn iter_keys() {
    let n = 20;
    let mut container = TableContainer::<usize>::new(8, slots_len());

    let mut keys = (0..n)
        .map(|i| raw(&add(&mut container, i).unwrap()))
        .collect::<Vec<_>>();

    keys.sort();

    let mut any_keys = Vec::new();
    let mut cursor = container.first();
    while let Some(key) = cursor {
        if any_keys.len() == 30 {
            break;
        }
        any_keys.push(raw(&key));
        cursor = container.next(&key);
    }

    assert_eq!(keys, any_keys);
}

#[test]
fn table_len_counts_items() {
    let mut container = TableContainer::<usize>::new(16, slots_len());
    assert_eq!(container.len(), 0);
    let a = add(&mut container, 1).unwrap();
    let _b = add(&mut container, 2).unwrap();
    assert_eq!(container.len(), 2);
    assert_eq!(container.unfill(&a), Some(1));
    assert_eq!(container.len(), 1);
    assert_eq!(container.unfill(&a), None);
    assert_eq!(container.len(), 1);
}

#[test]
fn table_first_key_is_one() {
    let mut container = TableContainer::<usize>::new(16, slots_len());
    let key = add(&mut container, 5).unwrap();
    assert_eq!(key.index(16).get(), 1);
}

#[test]
fn table_freed_slot_is_reused() {
    let mut container = TableContainer::<usize>::new(16, slots_len());
    let keys = (0..5).map(|i| add(&mut container, i).unwrap()).collect::<Vec<_>>();
    assert_eq!(container.unfill(&keys[2]), Some(2));
    let again = add(&mut container, 9).unwrap();
    assert_eq!(raw(&again), raw(&keys[2]));
    assert_eq!(container.get(&again), Some(&9));
}

#[test]
fn table_grows_past_first_table() {
    let l = slots_len();
    let mut container = TableContainer::<usize>::new(32, l);
    let n = l + 10;
    let keys = (0..n).map(|i| add(&mut container, i).unwrap()).collect::<Vec<_>>();
    let mut indices = keys.iter().map(|k| k.index(32).get()).collect::<Vec<_>>();
    indices.sort();
    indices.dedup();
    assert_eq!(indices.len(), n);
    assert_eq!(indices[0], 1);
    for (i, key) in keys.iter().enumerate() {
        assert_eq!(container.get(key), Some(&i));
    }
}

#[test]
fn table_key_space_runs_out() {
    let mut container = TableContainer::<usize>::new(2, slots_len());
    assert!(add(&mut container, 1).is_some());
    assert!(add(&mut container, 2).is_some());
    assert!(add(&mut container, 3).is_some());
    assert!(container.reserve().is_none());
}

#[test]
fn reserve_does_not_look_into_a_table_with_a_pending_reservation() {
    let mut container = TableContainer::<usize>::new(2, 2);
    let first = container.reserve().unwrap();
    assert_eq!(first.key().index(2).get(), 1);
    let second = container.reserve().unwrap();
    assert_eq!(second.key().index(2).get(), 2);
    // Index 3 is free and unreserved, but its table is not hinted while the
    // reservation of index 2 is pending.
    assert!(container.reserve().is_none());
    container.fulfill(second, 7);
    let third = container.reserve().unwrap();
    assert_eq!(third.key().index(2).get(), 3);
    container.cancel(first);
}
