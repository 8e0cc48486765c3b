use finny::{FsmError, FsmEventQueue, FsmEventQueueHeapless, FsmEventQueueNull, FsmEventQueueVec};

#[derive(Clone, Debug, PartialEq)]
struct EventA {
    n: usize,
}

#[derive(Clone, Debug, PartialEq)]
enum Events {
    EventA(EventA),
}

fn test_queue<Q: FsmEventQueue<Events>>(mut queue: Q) {
    // fill and drain
    {
        for i in 0..5 {
            queue.enqueue(Events::EventA(EventA { n: i })).unwrap();
        }

        for i in 0..5 {
            let ev = queue.dequeue().unwrap();
            assert_eq!(Events::EventA(EventA { n: i }), ev);
        }
    }
    assert_eq!(None, queue.dequeue());

    // zipper - enqueue 2, drain 1
    {
        let mut n = 0;
        let mut x = 0;
        for _ in 0..10 {
            queue.enqueue(Events::EventA(EventA { n })).unwrap();
            n += 1;
            queue.enqueue(Events::EventA(EventA { n })).unwrap();
            n += 1;

            {
                let ev = queue.dequeue().unwrap();
                assert_eq!(Events::EventA(EventA { n: x }), ev);
                x += 1;
            }
        }
    }
}

#[test]
fn test_dequeue_vec() {
    let queue = FsmEventQueueVec::<Events>::new();
    test_queue(queue);
}

#[test]
fn test_heapless() {
    let queue = FsmEventQueueHeapless::<Events>::new(16);
    test_queue(queue);
}

#[test]
fn bounded_queue_capacity_accounting() {
    let mut q = FsmEventQueueHeapless::<u32>::new(3);
    assert_eq!(q.capacity_of(), 3);
    assert_eq!(q.enqueue(1), Ok(()));
    assert_eq!(q.enqueue(2), Ok(()));
    assert_eq!(q.enqueue(3), Ok(()));
    assert_eq!(q.len(), 3);
    assert_eq!(q.enqueue(4), Err(FsmError::QueueOverCapacity));
    assert_eq!(q.len(), 3);
    assert_eq!(q.dequeue(), Some(1));
    assert_eq!(q.enqueue(5), Ok(()));
    assert_eq!(q.enqueue(6), Err(FsmError::QueueOverCapacity));
    assert_eq!(q.dequeue(), Some(2));
    assert_eq!(q.dequeue(), Some(3));
    assert_eq!(q.dequeue(), Some(5));
    assert_eq!(q.dequeue(), None);
    assert_eq!(q.len(), 0);
}

#[test]
fn bounded_queue_wraps_round_in_fifo_order() {
    let mut q = FsmEventQueueHeapless::<u32>::new(4);
    let mut next_in = 0u32;
    let mut next_out = 0u32;
    for _ in 0..25 {
        q.enqueue(next_in).unwrap();
        next_in += 1;
        q.enqueue(next_in).unwrap();
        next_in += 1;
        assert_eq!(q.dequeue(), Some(next_out));
        next_out += 1;
        assert_eq!(q.dequeue(), Some(next_out));
        next_out += 1;
    }
    assert_eq!(q.len(), 0);
}

#[test]
fn zero_capacity_queue_refuses_everything() {
    let mut q = FsmEventQueueHeapless::<u32>::new(0);
    assert_eq!(q.enqueue(7), Err(FsmError::QueueOverCapacity));
    assert_eq!(q.dequeue(), None);
    assert_eq!(q.len(), 0);
}

#[test]
fn vec_queue_fill_and_drain() {
    let mut q = FsmEventQueueVec::<u32>::new();
    for i in 0..100 {
        assert_eq!(q.enqueue(i), Ok(()));
    }
    assert_eq!(q.len(), 100);
    for i in 0..100 {
        assert_eq!(q.dequeue(), Some(i));
    }
    assert_eq!(q.dequeue(), None);
}

#[test]
fn null_queue_accepts_and_discards() {
    let mut q = FsmEventQueueNull::<u32>::new();
    assert_eq!(q.enqueue(1), Ok(()));
    assert_eq!(q.enqueue(2), Ok(()));
    assert_eq!(q.len(), 0);
    assert_eq!(q.dequeue(), None);
}
