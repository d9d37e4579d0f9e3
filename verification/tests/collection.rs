use refer::collection::{update_diff, VecCollection, VecShell};
use refer::graph_item::GraphItem;
use refer::key::{Index, Key};

fn values(collection: &mut VecCollection<GraphItem>, n: u64) -> Vec<Key<GraphItem>> {
    (0..n)
        .map(|i| match collection.add(GraphItem::Value(i)) {
            Ok(key) => key,
            Err(_) => panic!("adding a value failed"),
        })
        .collect()
}

fn index(key: Key<GraphItem>) -> u64 {
    key.index().get()
}

#[test]
fn reference_add() {
    let n = 10;
    let mut collection = VecCollection::new();
    let nodes = values(&mut collection, n);

    let center = match collection.add(GraphItem::Vertice(nodes.clone())) {
        Ok(key) => key,
        Err(_) => panic!("adding the vertex failed"),
    };

    for node in nodes {
        assert_eq!(collection.from(node).unwrap(), vec![index(center)]);
    }
}

#[test]
fn reference_add_abort() {
    let n = 10;
    let mut collection = VecCollection::new();
    let nodes = values(&mut collection, n);

    assert!(collection.remove(nodes[n as usize - 1]));

    assert!(collection.add(GraphItem::Vertice(nodes.clone())).is_err());

    for &node in nodes.iter().take(n as usize - 1) {
        assert_eq!(collection.from_count(node), Some(0));
    }
}

#[test]
fn reference_set() {
    let n = 10;
    let mut collection = VecCollection::new();
    let nodes = values(&mut collection, n);

    let center = match collection.add(GraphItem::Vertice(nodes.iter().take(5).copied().collect())) {
        Ok(key) => key,
        Err(_) => panic!("adding the vertex failed"),
    };

    assert!(collection
        .set(center, GraphItem::Vertice(nodes.iter().skip(5).copied().collect()))
        .is_ok());

    for &node in nodes.iter().take(5) {
        assert_eq!(collection.from_count(node), Some(0));
    }
    for &node in nodes.iter().skip(5) {
        assert_eq!(collection.from(node).unwrap(), vec![index(center)]);
    }
}

#[test]
fn reference_set_abort() {
    let n = 10;
    let mut collection = VecCollection::new();
    let nodes = values(&mut collection, n);

    // The vertex comes first: items of one type share slots, so one added
    // after the removal would take the freed slot.
    let center = match collection.add(GraphItem::Vertice(nodes.iter().take(5).copied().collect())) {
        Ok(key) => key,
        Err(_) => panic!("adding the vertex failed"),
    };

    assert!(collection.remove(nodes[n as usize - 1]));

    assert!(collection
        .add(GraphItem::Vertice(nodes.iter().skip(5).copied().collect()))
        .is_err());

    for &node in nodes.iter().take(5) {
        assert_eq!(collection.from(node).unwrap(), vec![index(center)]);
    }
    for &node in nodes.iter().skip(5).take(4) {
        assert_eq!(collection.from_count(node), Some(0));
    }
}

#[test]
fn reference_remove() {
    let n = 10;
    let mut collection = VecCollection::new();
    let nodes = values(&mut collection, n);

    let center = match collection.add(GraphItem::Vertice(nodes.clone())) {
        Ok(key) => key,
        Err(_) => panic!("adding the vertex failed"),
    };

    assert!(collection.remove(center));

    for node in nodes {
        assert_eq!(collection.from_count(node), Some(0));
    }
}

#[test]
fn cascading_remove() {
    let mut collection = VecCollection::new();
    let nodes = values(&mut collection, 2);
    let (a, b) = (nodes[0], nodes[1]);
    let edge = match collection.add(GraphItem::Edge(vec![a, b])) {
        Ok(key) => key,
        Err(_) => panic!("adding the edge failed"),
    };

    assert_eq!(collection.from_count(a), Some(1));
    assert_eq!(collection.from_count(b), Some(1));

    assert!(collection.remove(a));
    assert!(collection.get(edge).is_none());
    assert!(collection.get(a).is_none());
    assert!(matches!(collection.get(b), Some(GraphItem::Value(1))));
    assert_eq!(collection.from_count(b), Some(0));
}

#[test]
fn set_abort_changes_nothing() {
    let mut collection = VecCollection::new();
    let nodes = values(&mut collection, 3);
    let center = match collection.add(GraphItem::Vertice(vec![nodes[0]])) {
        Ok(key) => key,
        Err(_) => panic!("adding the vertex failed"),
    };
    assert!(collection.remove(nodes[2]));

    match collection.set(center, GraphItem::Vertice(vec![nodes[1], nodes[2]])) {
        Ok(_) => panic!("a reference to a removed item was accepted"),
        Err(back) => assert!(matches!(back, GraphItem::Vertice(ref keys) if keys.len() == 2)),
    }
    assert_eq!(collection.from(nodes[0]).unwrap(), vec![index(center)]);
    assert_eq!(collection.from_count(nodes[1]), Some(0));
}

#[test]
fn take_undoes_add() {
    let mut collection = VecCollection::new();
    let nodes = values(&mut collection, 2);
    let first_before = collection.first().map(index);
    let vertex = match collection.add(GraphItem::Vertice(vec![nodes[0], nodes[1], nodes[0]])) {
        Ok(key) => key,
        Err(_) => panic!("adding the vertex failed"),
    };
    assert_eq!(collection.from(nodes[0]).unwrap(), vec![index(vertex), index(vertex)]);

    let taken = collection.take(vertex);
    assert!(matches!(taken, Some(GraphItem::Vertice(ref keys)) if keys.len() == 3));
    assert!(collection.get(vertex).is_none());
    assert_eq!(collection.from_count(nodes[0]), Some(0));
    assert_eq!(collection.from_count(nodes[1]), Some(0));
    assert_eq!(collection.first().map(index), first_before);
}

#[test]
fn set_back_restores() {
    let mut collection = VecCollection::new();
    let nodes = values(&mut collection, 4);
    let center = match collection.add(GraphItem::Vertice(vec![nodes[0], nodes[1]])) {
        Ok(key) => key,
        Err(_) => panic!("adding the vertex failed"),
    };
    let previous = match collection.set(center, GraphItem::Vertice(vec![nodes[2], nodes[3]])) {
        Ok(prev) => prev,
        Err(_) => panic!("setting the vertex failed"),
    };
    assert!(collection.set(center, previous).is_ok());
    assert_eq!(collection.from(nodes[0]).unwrap(), vec![index(center)]);
    assert_eq!(collection.from(nodes[1]).unwrap(), vec![index(center)]);
    assert_eq!(collection.from_count(nodes[2]), Some(0));
    assert_eq!(collection.from_count(nodes[3]), Some(0));
}

#[test]
fn iteration_in_index_order() {
    let mut collection = VecCollection::new();
    let nodes = values(&mut collection, 5);
    assert!(collection.remove(nodes[2]));
    let mut seen = Vec::new();
    let mut cursor = collection.first();
    while let Some(key) = cursor {
        seen.push(index(key));
        cursor = collection.next(key);
    }
    let expected: Vec<u64> = [0usize, 1, 3, 4].iter().map(|&i| index(nodes[i])).collect();
    assert_eq!(seen, expected);
}

#[test]
fn freed_index_is_reused() {
    let mut collection = VecCollection::new();
    let nodes = values(&mut collection, 3);
    assert!(collection.remove(nodes[1]));
    let again = match collection.add(GraphItem::Value(7)) {
        Ok(key) => key,
        Err(_) => panic!("adding failed"),
    };
    assert_eq!(index(again), index(nodes[1]));
    assert!(matches!(collection.get(again), Some(GraphItem::Value(7))));
}

#[test]
fn unknown_key_is_refused() {
    let mut collection: VecCollection<GraphItem> = VecCollection::new();
    let nodes = values(&mut collection, 1);
    assert!(collection.remove(nodes[0]));
    assert!(!collection.remove(nodes[0]));
    assert!(collection.take(nodes[0]).is_none());
    assert_eq!(collection.from_count(nodes[0]), None);
    assert!(collection.from(nodes[0]).is_none());
}

fn key(i: u64) -> Key<GraphItem> {
    Key::new(Index::new(i).unwrap())
}

fn shell_with(from: &[u64]) -> Option<VecShell<GraphItem>> {
    let mut shell = VecShell::new();
    for &f in from {
        shell.add_from(f);
    }
    Some(shell)
}

#[test]
fn update_diff_moves_references() {
    let mut shells = vec![None, shell_with(&[]), shell_with(&[]), shell_with(&[5, 4]), shell_with(&[])];
    let prev = GraphItem::Vertice(vec![key(3)]);
    let new = GraphItem::Vertice(vec![key(2), key(1), key(2)]);
    assert!(update_diff(&mut shells, key(5), &prev, &new));
    let from: Vec<Vec<u64>> = shells.iter().skip(1).map(|s| s.as_ref().unwrap().from()).collect();
    assert_eq!(from, vec![vec![5], vec![5, 5], vec![4], vec![]]);
}

#[test]
fn update_diff_refuses_missing_shell() {
    let mut shells = vec![None, shell_with(&[]), None, shell_with(&[5])];
    let prev = GraphItem::Vertice(vec![key(3)]);
    let new = GraphItem::Vertice(vec![key(1), key(2)]);
    assert!(!update_diff(&mut shells, key(5), &prev, &new));
    assert_eq!(shells[1].as_ref().unwrap().from(), Vec::<u64>::new());
    assert!(shells[2].is_none());
    assert_eq!(shells[3].as_ref().unwrap().from(), vec![5]);
}

#[test]
fn update_diff_pairs_shared_references() {
    let mut shells = vec![None, shell_with(&[5]), None, shell_with(&[]), shell_with(&[])];
    let prev = GraphItem::Vertice(vec![key(2), key(1), key(4)]);
    let new = GraphItem::Vertice(vec![key(2), key(3)]);
    assert!(update_diff(&mut shells, key(5), &prev, &new));
    assert_eq!(shells[1].as_ref().unwrap().from(), Vec::<u64>::new());
    assert!(shells[2].is_none());
    assert_eq!(shells[3].as_ref().unwrap().from(), vec![5]);
    assert_eq!(shells[4].as_ref().unwrap().from(), Vec::<u64>::new());
}

#[test]
fn duplicate_shell_adds_references_in_place_or_through_duplicates() {
    let mut collection = VecCollection::new();
    let nodes = values(&mut collection, 3);
    let (a, b, c) = (nodes[0], nodes[1], nodes[2]);
    let vertex = match collection.add(GraphItem::Vertice(vec![a])) {
        Ok(key) => key,
        Err(_) => panic!("adding the vertex failed"),
    };
    let edge = match collection.add(GraphItem::Edge(vec![a, c])) {
        Ok(key) => key,
        Err(_) => panic!("adding the edge failed"),
    };
    assert!(collection.duplicate_shell(a, b));
    let mut from_b = collection.from(b).unwrap();
    from_b.sort();
    assert_eq!(from_b.len(), 2);
    assert_eq!(from_b[0], index(vertex));
    let duplicate = from_b[1];
    assert!(duplicate != index(edge));
    let mut from_a = collection.from(a).unwrap();
    from_a.sort();
    assert_eq!(from_a, vec![index(vertex), index(edge)]);
    let mut from_c = collection.from(c).unwrap();
    from_c.sort();
    assert_eq!(from_c, vec![index(edge), duplicate]);
    assert!(!collection.duplicate_shell(a, Key::new(Index::new(99).unwrap())));
}
