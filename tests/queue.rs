use faaa_queue::FAAAQueue;
use faaa_queue::protocol::{dequeue_observes_empty, dequeue_step, enqueue_step, DequeueStep, EnqueueStep};
use faaa_queue::BUFFER_SIZE;
use haphazard::HazardPointer;

#[test]
fn create_faaaq_queue() {
    let mut q: FAAAQueue<i32> = FAAAQueue::new();
    let mut hp = HazardPointer::new();
    q.enqueue(1, &mut hp);
    assert_eq!(q.dequeue(&mut hp), Some(1));
}

#[test]
fn test_almost_full() {
    let mut q: FAAAQueue<usize> = FAAAQueue::new();
    let mut hp = HazardPointer::new();
    for i in 0..BUFFER_SIZE {
        q.enqueue(i, &mut hp);
    }
    for i in 0..BUFFER_SIZE {
        assert_eq!(q.dequeue(&mut hp), Some(i));
    }
}

#[test]
fn test_double_buf_size() {
    let mut q: FAAAQueue<usize> = FAAAQueue::new();
    let mut hp = HazardPointer::new();
    for i in 0..BUFFER_SIZE * 2 {
        q.enqueue(i, &mut hp);
    }
    for i in 0..BUFFER_SIZE * 2 {
        assert_eq!(q.dequeue(&mut hp), Some(i));
    }
}

#[test]
fn sequential_order_across_several_segments() {
    let mut q: FAAAQueue<u64> = FAAAQueue::new();
    let mut hp = HazardPointer::new();
    let n: u64 = 3 * BUFFER_SIZE as u64 + 17;
    for v in 1..=n {
        q.enqueue(v, &mut hp);
    }
    for v in 1..=n {
        assert_eq!(q.dequeue(&mut hp), Some(v));
    }
    assert_eq!(q.dequeue(&mut hp), None);
}

#[test]
fn segment_boundary_then_empty() {
    let mut q: FAAAQueue<usize> = FAAAQueue::new();
    let mut hp = HazardPointer::new();
    for i in 0..BUFFER_SIZE + 1 {
        q.enqueue(i, &mut hp);
    }
    for i in 0..BUFFER_SIZE + 1 {
        assert_eq!(q.dequeue(&mut hp), Some(i));
    }
    assert_eq!(q.dequeue(&mut hp), None);
    q.enqueue(7, &mut hp);
    assert_eq!(q.dequeue(&mut hp), Some(7));
    assert_eq!(q.dequeue(&mut hp), None);
}

#[test]
fn fresh_queue_dequeues_nothing() {
    let mut q: FAAAQueue<String> = FAAAQueue::new();
    let mut hp = HazardPointer::new();
    assert_eq!(q.dequeue(&mut hp), None);
    assert_eq!(q.dequeue(&mut hp), None);
}

#[test]
fn default_queue_is_empty() {
    let mut q: FAAAQueue<u8> = FAAAQueue::default();
    let mut hp = HazardPointer::new();
    assert_eq!(q.dequeue(&mut hp), None);
}

#[test]
fn holes_are_skipped() {
    let mut q: FAAAQueue<u32> = FAAAQueue::new();
    let mut hp = HazardPointer::new();
    q.enqueue(1, &mut hp);
    assert!(q.abandon_claim());
    assert!(q.abandon_claim());
    q.enqueue(2, &mut hp);
    assert!(q.abandon_claim());
    q.enqueue(3, &mut hp);
    assert_eq!(q.dequeue(&mut hp), Some(1));
    assert_eq!(q.dequeue(&mut hp), Some(2));
    assert_eq!(q.dequeue(&mut hp), Some(3));
    assert_eq!(q.dequeue(&mut hp), None);
}

#[test]
fn holes_fill_a_segment_before_a_later_item() {
    let mut q: FAAAQueue<u32> = FAAAQueue::new();
    let mut hp = HazardPointer::new();
    for _ in 0..BUFFER_SIZE {
        assert!(q.abandon_claim());
    }
    assert!(!q.abandon_claim());
    q.enqueue(42, &mut hp);
    assert_eq!(q.dequeue(&mut hp), Some(42));
    assert_eq!(q.dequeue(&mut hp), None);
}

#[test]
fn interleaved_operations_conserve_items() {
    let mut q: FAAAQueue<u32> = FAAAQueue::new();
    let mut hp = HazardPointer::new();
    let mut delivered: Vec<u32> = Vec::new();
    let mut enqueued: Vec<u32> = Vec::new();
    for round in 0..700u32 {
        for p in 0..3u32 {
            let v = p * 100_000 + round;
            q.enqueue(v, &mut hp);
            enqueued.push(v);
        }
        if round % 5 == 0 {
            let _ = q.abandon_claim();
        }
        for _ in 0..2 {
            if let Some(v) = q.dequeue(&mut hp) {
                delivered.push(v);
            }
        }
    }
    while let Some(v) = q.dequeue(&mut hp) {
        delivered.push(v);
    }
    delivered.sort();
    enqueued.sort();
    assert_eq!(delivered, enqueued);
}

#[test]
fn teardown_returns_every_item_left() {
    let mut q: FAAAQueue<usize> = FAAAQueue::new();
    let mut hp = HazardPointer::new();
    for i in 0..2 * BUFFER_SIZE + 5 {
        q.enqueue(i, &mut hp);
    }
    for i in 0..10 {
        assert_eq!(q.dequeue(&mut hp), Some(i));
    }
    let left = q.teardown();
    let expected: Vec<usize> = (10..2 * BUFFER_SIZE + 5).collect();
    assert_eq!(left, expected);
}

#[test]
fn teardown_keeps_head_segment_items() {
    let mut q: FAAAQueue<String> = FAAAQueue::new();
    let mut hp = HazardPointer::new();
    q.enqueue("a".to_string(), &mut hp);
    q.enqueue("b".to_string(), &mut hp);
    assert_eq!(q.teardown(), vec!["a".to_string(), "b".to_string()]);
}

#[test]
fn teardown_of_empty_queue() {
    let q: FAAAQueue<u8> = FAAAQueue::new();
    assert_eq!(q.teardown(), Vec::<u8>::new());
}

#[test]
fn enqueue_decisions() {
    assert_eq!(enqueue_step(0, false, true), EnqueueStep::Install);
    assert_eq!(enqueue_step(BUFFER_SIZE - 1, true, false), EnqueueStep::Install);
    assert_eq!(enqueue_step(BUFFER_SIZE, true, true), EnqueueStep::Retry);
    assert_eq!(enqueue_step(BUFFER_SIZE, false, true), EnqueueStep::Link);
    assert_eq!(enqueue_step(BUFFER_SIZE + 3, false, false), EnqueueStep::HelpAdvance);
}

#[test]
fn dequeue_decisions() {
    assert!(dequeue_observes_empty(4, 4, true));
    assert!(dequeue_observes_empty(5, 4, true));
    assert!(!dequeue_observes_empty(4, 4, false));
    assert!(!dequeue_observes_empty(3, 4, true));
    assert_eq!(dequeue_step(0, true), DequeueStep::Take);
    assert_eq!(dequeue_step(BUFFER_SIZE, true), DequeueStep::ReportEmpty);
    assert_eq!(dequeue_step(BUFFER_SIZE, false), DequeueStep::AdvanceHead);
}
