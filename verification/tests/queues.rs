use refer::order::{FifoQueue, ForwardQueue, LifoQueue, Queue, QueueKey};
use refer::radix::TopologicalQueue;

fn drain_pops<Q: Queue<&'static str>>(queue: &mut Q) -> Vec<(QueueKey, &'static str)> {
    let mut out = Vec::new();
    while let Some(entry) = Queue::pop(queue) {
        out.push(entry);
    }
    out
}

#[test]
fn lifo_pops_last_first() {
    let mut queue = LifoQueue::<QueueKey, &'static str>::new();
    assert!(Queue::push(&mut queue, (0, 0), "a"));
    assert!(Queue::push(&mut queue, (0, 0), "b"));
    assert!(Queue::push(&mut queue, (0, 0), "c"));
    let items: Vec<_> = drain_pops(&mut queue).into_iter().map(|(_, i)| i).collect();
    assert_eq!(items, vec!["c", "b", "a"]);
}

#[test]
fn fifo_pops_first_first() {
    let mut queue = FifoQueue::<QueueKey, &'static str>::new();
    Queue::push(&mut queue, (0, 0), "a");
    Queue::push(&mut queue, (0, 0), "b");
    Queue::push(&mut queue, (0, 0), "c");
    assert_eq!(Queue::peek(&mut queue).map(|(_, i)| *i), Some("a"));
    let items: Vec<_> = drain_pops(&mut queue).into_iter().map(|(_, i)| i).collect();
    assert_eq!(items, vec!["a", "b", "c"]);
}

#[test]
fn forward_sorts_each_round() {
    let mut queue = ForwardQueue::<&'static str>::new();
    Queue::push(&mut queue, (3, 0), "c");
    Queue::push(&mut queue, (1, 0), "a");
    Queue::push(&mut queue, (2, 1), "b1");
    Queue::push(&mut queue, (2, 0), "b0");
    assert_eq!(Queue::pop(&mut queue), Some(((1, 0), "a")));
    // Queued during a round, so it waits for the next one.
    Queue::push(&mut queue, (0, 0), "z");
    assert_eq!(Queue::peek(&mut queue).map(|(k, i)| (k, *i)), Some(((2, 0), "b0")));
    assert_eq!(Queue::pop(&mut queue), Some(((2, 0), "b0")));
    assert_eq!(Queue::pop(&mut queue), Some(((2, 1), "b1")));
    assert_eq!(Queue::pop(&mut queue), Some(((3, 0), "c")));
    assert_eq!(Queue::pop(&mut queue), Some(((0, 0), "z")));
    assert_eq!(Queue::pop(&mut queue), None);
}

#[test]
fn forward_hands_equal_keys_out_last_queued_first() {
    let mut queue = ForwardQueue::<&'static str>::new();
    Queue::push(&mut queue, (1, 0), "first");
    Queue::push(&mut queue, (1, 0), "second");
    Queue::push(&mut queue, (1, 0), "third");
    let items: Vec<_> = drain_pops(&mut queue).into_iter().map(|(_, i)| i).collect();
    assert_eq!(items, vec!["third", "second", "first"]);
}

#[test]
fn topological_pops_lowest_and_refuses_going_back() {
    let mut queue = TopologicalQueue::<&'static str>::new();
    assert!(Queue::push(&mut queue, (5, 0), "five"));
    assert!(Queue::push(&mut queue, (3, 0), "three"));
    assert!(Queue::push(&mut queue, (7, 0), "seven"));
    assert_eq!(Queue::peek(&mut queue).map(|(k, i)| (k, *i)), Some(((3, 0), "three")));
    assert_eq!(Queue::pop(&mut queue), Some(((3, 0), "three")));
    assert!(!Queue::push(&mut queue, (2, 0), "two"));
    assert!(!Queue::push(&mut queue, (3, 0), "three again"));
    assert!(Queue::push(&mut queue, (3, 1), "three in group one"));
    assert!(Queue::push(&mut queue, (4, 0), "four"));
    let items: Vec<_> = drain_pops(&mut queue).into_iter().map(|(_, i)| i).collect();
    assert_eq!(items, vec!["three in group one", "four", "five", "seven"]);
}

#[test]
fn topological_drain_reopens() {
    let mut queue = TopologicalQueue::<&'static str>::new();
    Queue::push(&mut queue, (5, 0), "five");
    Queue::push(&mut queue, (6, 0), "six");
    assert_eq!(Queue::pop(&mut queue), Some(((5, 0), "five")));
    assert!(!Queue::push(&mut queue, (1, 0), "one"));
    let mut rest = Queue::drain(&mut queue);
    rest.sort();
    assert_eq!(rest, vec![((6, 0), "six")]);
    assert!(Queue::push(&mut queue, (1, 0), "one"));
    assert_eq!(Queue::pop(&mut queue), Some(((1, 0), "one")));
}

#[test]
fn drain_hands_out_every_entry() {
    let mut queue = FifoQueue::<QueueKey, &'static str>::new();
    Queue::push(&mut queue, (0, 1), "x");
    Queue::push(&mut queue, (0, 2), "y");
    let all = Queue::drain(&mut queue);
    assert_eq!(all, vec![((0, 1), "x"), ((0, 2), "y")]);
    assert_eq!(Queue::pop(&mut queue), None);
}
