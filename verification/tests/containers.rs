use refer::container::{Bound, ItemContainer, VecContainer};

#[test]
fn vec_fill() {
    let n = 20;
    let mut container = VecContainer::new(usize::MAX);

    let indices = (0..n)
        .map(|i| container.fill(i).unwrap())
        .collect::<Vec<_>>();

    for (i, index) in indices.iter().enumerate() {
        assert_eq!(*container.get(*index).unwrap(), i);
    }
}

#[test]
fn vec_unfill() {
    let mut container = VecContainer::new(usize::MAX);

    let item = 42;
    let index = container.fill(item).unwrap();

    assert_eq!(*container.get(index).unwrap(), item);
    assert_eq!(container.unfill(index).unwrap(), item);
    assert!(container.get(index).is_none());
}

#[test]
fn vec_iter() {
    let n = 20;
    let mut container = VecContainer::new(usize::MAX);

    let mut indices = (0..n)
        .map(|i| (container.fill(i).unwrap() as u64, i))
        .collect::<Vec<_>>();

    indices.sort();

    assert_eq!(
        indices,
        container
            .iter_slice(Bound::Unbounded, Bound::Unbounded)
            .into_iter()
            .map(|index| (index as u64, *container.get(index).unwrap()))
            .collect::<Vec<_>>()
    );
}

#[test]
fn item_fill() {
    let mut container = ItemContainer::new();

    let item = 42;
    let key = container.fill(item).unwrap();

    assert_eq!(*container.get(key).unwrap(), item);
    assert!(container
        .iter(Bound::Unbounded, Bound::Unbounded)
        .into_iter()
        .map(|index| (index as u64, *container.get(index).unwrap()))
        .eq(Some((key as u64, item))));
}

#[test]
fn item_unfill() {
    let mut container = ItemContainer::new();

    let item = 42;
    let key = container.fill(item).unwrap();

    assert_eq!(*container.get(key).unwrap(), item);

    assert_eq!(container.unfill(key), Some(item));

    assert!(container.get(key).is_none());
    assert_eq!(container.iter(Bound::Unbounded, Bound::Unbounded).len(), 0);
}

#[test]
fn vec_clear_takes_all_in_index_order() {
    let mut container = VecContainer::new(usize::MAX);
    let indices = (0..6).map(|i| container.fill(i * 10).unwrap()).collect::<Vec<_>>();
    assert_eq!(container.unfill(indices[2]), Some(20));
    let cleared = container.clear();
    assert_eq!(
        cleared,
        vec![
            (indices[0], 0),
            (indices[1], 10),
            (indices[3], 30),
            (indices[4], 40),
            (indices[5], 50)
        ]
    );
    assert!(container.is_empty());
    assert!(container.first().is_none());
}
