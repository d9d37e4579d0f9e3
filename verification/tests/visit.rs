use refer::isolate::PausedGroups;
use refer::order::{FifoQueue, QueueKey};
use refer::process::{DagProcess, ProcessIsolatedDAG};
use refer::visit::{DagCore, InternalEvent, IterNode, VisitDAG};

type Core = DagCore<u32, FifoQueue<QueueKey, (u32, u64)>>;

/// A step, as plain values: an event, held-back inputs, or a node to visit.
#[derive(Debug, PartialEq)]
enum Seen {
    Event(InternalEvent),
    Held(Vec<u32>, u64),
    Visit(Option<u64>, u32, Vec<u32>, u64),
}

fn step(core: &mut Core) -> Option<Seen> {
    match core.process_next()? {
        Ok(IterNode::Internal(e)) => Some(Seen::Event(e)),
        Ok(IterNode::AlreadyExpanded(inputs, key)) => Some(Seen::Held(inputs, key)),
        Ok(IterNode::NotExpanded(key)) => Some(Seen::Held(Vec::new(), key)),
        Err((order, group, inputs, key)) => Some(Seen::Visit(order, group, inputs, key)),
    }
}

#[test]
fn roots_then_start_processed() {
    let mut core = Core::new(vec![(0, 10), (0, 11)]);
    assert_eq!(step(&mut core), Some(Seen::Visit(None, 0, vec![], 10)));
    assert_eq!(step(&mut core), Some(Seen::Visit(None, 0, vec![], 11)));
    assert_eq!(step(&mut core), Some(Seen::Event(InternalEvent::StartProcessed)));
    assert_eq!(step(&mut core), None);
}

#[test]
fn inputs_to_one_node_come_together() {
    let mut core = Core::new(vec![]);
    assert!(core.add_input_to_group(0, 0, 7, 20));
    assert!(core.add_input_to_group(0, 0, 8, 20));
    assert!(core.add_input_to_group(0, 0, 9, 21));
    assert_eq!(step(&mut core), Some(Seen::Visit(Some(0), 0, vec![7, 8], 20)));
    assert_eq!(step(&mut core), Some(Seen::Visit(Some(0), 0, vec![9], 21)));
    assert_eq!(step(&mut core), Some(Seen::Event(InternalEvent::LevelProcessed)));
    assert_eq!(step(&mut core), None);
}

#[test]
fn roots_come_before_queued_inputs() {
    let mut core = Core::new(vec![(1, 5)]);
    assert!(core.add_input_to_group(1, 2, 3, 30));
    core.add_root_to_group(1, 6);
    assert_eq!(step(&mut core), Some(Seen::Visit(None, 1, vec![], 5)));
    assert_eq!(step(&mut core), Some(Seen::Visit(None, 1, vec![], 6)));
    assert_eq!(step(&mut core), Some(Seen::Event(InternalEvent::StartProcessed)));
    assert_eq!(step(&mut core), Some(Seen::Visit(Some(2), 1, vec![3], 30)));
    assert_eq!(step(&mut core), Some(Seen::Event(InternalEvent::LevelProcessed)));
}

#[test]
fn purge_removes_a_group() {
    let mut core = Core::new(vec![(0, 1), (1, 2), (0, 3)]);
    assert!(core.add_input_to_group(1, 0, 100, 40));
    assert!(core.add_input_to_group(0, 0, 200, 50));
    assert!(core.add_input_to_group(1, 0, 300, 60));
    core.purge(1);
    assert_eq!(step(&mut core), Some(Seen::Visit(None, 0, vec![], 1)));
    assert_eq!(step(&mut core), Some(Seen::Visit(None, 0, vec![], 3)));
    assert_eq!(step(&mut core), Some(Seen::Event(InternalEvent::StartProcessed)));
    assert_eq!(step(&mut core), Some(Seen::Visit(Some(0), 0, vec![200], 50)));
    assert_eq!(step(&mut core), Some(Seen::Event(InternalEvent::LevelProcessed)));
    assert_eq!(step(&mut core), None);
}

#[test]
fn isolated_space_numbers_groups_by_place() {
    let visit = VisitDAG::isolated_space(vec![vec![1, 2], vec![3]]).breadth();
    let mut core: Core = visit.into_core();
    assert_eq!(step(&mut core), Some(Seen::Visit(None, 0, vec![], 1)));
    assert_eq!(step(&mut core), Some(Seen::Visit(None, 0, vec![], 2)));
    assert_eq!(step(&mut core), Some(Seen::Visit(None, 1, vec![], 3)));
    assert_eq!(step(&mut core), Some(Seen::Event(InternalEvent::StartProcessed)));
}

#[test]
fn rooted_and_subset_start_in_group_zero() {
    let mut core: Core = VisitDAG::rooted(5).mutate().shared_space().breadth().into_core();
    assert_eq!(step(&mut core), Some(Seen::Visit(None, 0, vec![], 5)));
    let mut core: Core = VisitDAG::subset(vec![8, 9]).breadth().into_core();
    assert_eq!(step(&mut core), Some(Seen::Visit(None, 0, vec![], 8)));
    assert_eq!(step(&mut core), Some(Seen::Visit(None, 0, vec![], 9)));
}

#[test]
fn paused_groups_keep_and_reuse() {
    let mut groups = PausedGroups::<Vec<u64>>::paused(&vec![(2, 5)]);
    assert!(groups.access(1).is_empty());
    groups.return_keys(1, vec![4, 5]);
    assert_eq!(groups.access(1), vec![4, 5]);
    assert!(groups.access(1).is_empty());
    assert_eq!(groups.add_group(), 3);
    groups.remove_group(1);
    assert_eq!(groups.add_group(), 1);
    assert_eq!(groups.add_group(), 4);
}

#[test]
fn process_adds_and_purges_groups() {
    let mut process = DagProcess::<u32, FifoQueue<QueueKey, (u32, u64)>, Vec<u64>>::new(vec![(0, 1)]);
    let g = process.add_group();
    assert_eq!(g, 1);
    process.add_root_to_group(g, 7);
    assert!(process.add_input_to_group(g, 0, 3, 9));
    process.purge(g);
    assert_eq!(process.add_group(), g);
}

#[test]
fn routed_inputs_are_held_or_queued() {
    let mut core = Core::new(vec![]);
    assert!(core.route(0, 1, 70, false, None));
    assert!(core.route(0, 2, 71, true, Some(3)));
    assert!(!core.route(0, 3, 72, true, None));
    assert_eq!(step(&mut core), Some(Seen::Held(vec![1], 70)));
    assert_eq!(step(&mut core), Some(Seen::Visit(Some(3), 0, vec![2], 71)));
    assert_eq!(step(&mut core), Some(Seen::Event(InternalEvent::LevelProcessed)));
    assert_eq!(step(&mut core), None);
}
