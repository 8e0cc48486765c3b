//! Event queues: one FIFO contract, three storage strategies.
use vstd::prelude::*;
use std::collections::VecDeque;
use crate::error::{FsmError, FsmResult};

verus! {

/// The event queueing capability of a machine. It is used from outside and
/// from inside the hooks and actions of the machine.
pub trait FsmEventQueue<E>: Sized {
    /// The events waiting to be taken, oldest first.
    spec fn queued(&self) -> Seq<E>;

    /// The number of events the queue can hold; `None` when unbounded.
    spec fn capacity(&self) -> Option<nat>;

    /// Whether accepted events are kept for a later `dequeue`.
    spec fn retains(&self) -> bool;

    /// Try to enqueue an event.
    fn enqueue(&mut self, event: E) -> (r: FsmResult<()>)
        ensures
            r is Ok <==> (old(self).capacity() matches Some(c) ==> old(self).queued().len() < c),
            r is Err ==> r == Err::<(), FsmError>(FsmError::QueueOverCapacity),
            final(self).capacity() == old(self).capacity(),
            final(self).capacity() matches Some(c) ==> final(self).queued().len() <= c,
            final(self).queued() == (if r is Ok && old(self).retains() {
                old(self).queued().push(event)
            } else {
                old(self).queued()
            }),
            final(self).retains() == old(self).retains(),
    ;

    /// Try to dequeue the oldest event.
    fn dequeue(&mut self) -> (r: Option<E>)
        ensures
            old(self).queued().len() == 0 ==> r is None && final(self).queued() == old(self).queued(),
            old(self).queued().len() > 0 ==> r == Some(old(self).queued()[0]) && final(self).queued()
                == old(self).queued().drop_first(),
            final(self).retains() == old(self).retains(),
            final(self).capacity() == old(self).capacity(),
            final(self).capacity() matches Some(c) ==> final(self).queued().len() <= c,
    ;

    /// Number of events waiting to be dequeued.
    fn len(&self) -> (r: usize)
        ensures
            r == self.queued().len(),
            self.capacity() matches Some(c) ==> r <= c,
    ;
}

/// `after` holds what `before` held, in order, and maybe more after it.
pub open spec fn extends<E>(before: Seq<E>, after: Seq<E>) -> bool {
    after.len() >= before.len() && after.subrange(0, before.len() as int) == before
}

pub proof fn lemma_extends_refl<E>(s: Seq<E>)
    ensures
        extends(s, s),
{
    assert(s.subrange(0, s.len() as int) =~= s);
}

pub proof fn lemma_extends_trans<E>(a: Seq<E>, b: Seq<E>, c: Seq<E>)
    requires
        extends(a, b),
        extends(b, c),
    ensures
        extends(a, c),
{
    assert(c.subrange(0, a.len() as int) =~= c.subrange(0, b.len() as int).subrange(0, a.len() as int));
}

pub proof fn lemma_extends_push<E>(s: Seq<E>, e: E)
    ensures
        extends(s, s.push(e)),
{
    assert(s.push(e).subrange(0, s.len() as int) =~= s);
}

/// A queue that hooks were given: they only appended to it.
pub open spec fn appended_only<E, Q: FsmEventQueue<E>>(before: Q, after: Q) -> bool {
    &&& extends(before.queued(), after.queued())
    &&& after.retains() == before.retains()
    &&& after.capacity() == before.capacity()
}

/// An unbounded event queue backed by a `VecDeque`.
pub struct FsmEventQueueVec<E> {
    queue: VecDeque<E>,
}

impl<E> FsmEventQueueVec<E> {
    pub fn new() -> (r: Self)
        ensures
            r.queued() == Seq::<E>::empty(),
    {
        FsmEventQueueVec { queue: VecDeque::new() }
    }
}

impl<E> FsmEventQueue<E> for FsmEventQueueVec<E> {
    closed spec fn queued(&self) -> Seq<E> {
        self.queue@
    }

    open spec fn capacity(&self) -> Option<nat> {
        None
    }

    open spec fn retains(&self) -> bool {
        true
    }

    fn enqueue(&mut self, event: E) -> (r: FsmResult<()>) {
        self.queue.push_back(event);
        Ok(())
    }

    fn dequeue(&mut self) -> (r: Option<E>) {
        let r = self.queue.pop_front();
        proof {
            if old(self).queue@.len() > 0 {
                assert(old(self).queue@.subrange(1, old(self).queue@.len() as int)
                    =~= old(self).queue@.drop_first());
            }
        }
        r
    }

    fn len(&self) -> (r: usize) {
        self.queue.len()
    }
}

/// A queue that accepts every event and keeps none. For callers that drive
/// dispatch directly and never need deferred delivery.
pub struct FsmEventQueueNull<E> {
    _events: std::marker::PhantomData<E>,
}

impl<E> FsmEventQueueNull<E> {
    pub fn new() -> (r: Self)
        ensures
            r.queued() == Seq::<E>::empty(),
    {
        FsmEventQueueNull { _events: std::marker::PhantomData }
    }
}

impl<E> FsmEventQueue<E> for FsmEventQueueNull<E> {
    open spec fn queued(&self) -> Seq<E> {
        Seq::empty()
    }

    open spec fn capacity(&self) -> Option<nat> {
        None
    }

    open spec fn retains(&self) -> bool {
        false
    }

    fn enqueue(&mut self, event: E) -> (r: FsmResult<()>) {
        Ok(())
    }

    fn dequeue(&mut self) -> (r: Option<E>) {
        None
    }

    fn len(&self) -> (r: usize) {
        0
    }
}

/// A queue with a fixed capacity, fixed when it is made: a ring buffer over
/// preallocated slots. Once full it refuses events until one is dequeued.
pub struct FsmEventQueueHeapless<E> {
    slots: Vec<Option<E>>,
    head: usize,
    count: usize,
}

impl<E> FsmEventQueueHeapless<E> {
    /// The slot that holds the `k`-th queued event.
    spec fn slot_of(&self, k: int) -> int {
        if self.head + k < self.slots@.len() {
            self.head + k
        } else {
            self.head + k - self.slots@.len()
        }
    }

    /// How far slot `i` lies after the head, going round.
    spec fn offset_of(&self, i: int) -> int {
        if i >= self.head {
            i - self.head
        } else {
            i + self.slots@.len() - self.head
        }
    }

    #[verifier::type_invariant]
    spec fn ring_ok(&self) -> bool {
        &&& self.count <= self.slots@.len()
        &&& (self.slots@.len() == 0 ==> self.head == 0)
        &&& (self.slots@.len() > 0 ==> self.head < self.slots@.len())
        &&& forall|i: int|
            0 <= i < self.slots@.len() ==> (#[trigger] self.slots@[i] is Some <==> self.offset_of(i)
                < self.count)
    }

    /// Makes an empty queue that holds at most `capacity` events.
    pub fn new(capacity: usize) -> (r: Self)
        ensures
            r.queued() == Seq::<E>::empty(),
            r.capacity() == Some(capacity as nat),
    {
        let mut slots: Vec<Option<E>> = Vec::new();
        let mut i: usize = 0;
        while i < capacity
            invariant
                i <= capacity,
                slots@.len() == i,
                forall|j: int| 0 <= j < i ==> #[trigger] slots@[j] is None,
            decreases capacity - i,
        {
            slots.push(None);
            i = i + 1;
        }
        FsmEventQueueHeapless { slots, head: 0, count: 0 }
    }

    /// The number of events the queue can hold.
    pub fn capacity_of(&self) -> (r: usize)
        ensures
            self.capacity() == Some(r as nat),
    {
        self.slots.len()
    }
}

impl<E> FsmEventQueue<E> for FsmEventQueueHeapless<E> {
    closed spec fn queued(&self) -> Seq<E> {
        Seq::new(self.count as nat, |k: int| self.slots@[self.slot_of(k)]->Some_0)
    }

    closed spec fn capacity(&self) -> Option<nat> {
        Some(self.slots@.len())
    }

    open spec fn retains(&self) -> bool {
        true
    }

    fn enqueue(&mut self, event: E) -> (r: FsmResult<()>) {
        proof {
            use_type_invariant(&*self);
        }
        let cap = self.slots.len();
        if self.count == cap {
            return Err(FsmError::QueueOverCapacity);
        }
        let tail: usize = if self.head < cap - self.count {
            self.head + self.count
        } else {
            self.head - (cap - self.count)
        };
        let ghost before = *self;
        let mut whole = FsmEventQueueHeapless { slots: Vec::new(), head: 0, count: 0 };
        std::mem::swap(self, &mut whole);
        let FsmEventQueueHeapless { mut slots, head, count } = whole;
        let mut item = Some(event);
        slots.set_and_swap(tail, &mut item);
        let after = FsmEventQueueHeapless { slots, head, count: count + 1 };
        proof {
            assert forall|i: int| 0 <= i < after.slots@.len() implies (#[trigger] after.slots@[i] is Some
                <==> after.offset_of(i) < after.count) by {
                if i != tail {
                    assert(before.slots@[i] == after.slots@[i]);
                    assert(before.offset_of(i) == after.offset_of(i));
                }
            }
            assert(after.queued() =~= before.queued().push(event)) by {
                assert forall|k: int| 0 <= k < before.count implies after.slot_of(k) != tail
                    && after.slot_of(k) == before.slot_of(k) by {}
            }
        }
        *self = after;
        Ok(())
    }

    fn dequeue(&mut self) -> (r: Option<E>) {
        proof {
            use_type_invariant(&*self);
        }
        if self.count == 0 {
            return None;
        }
        let h = self.head;
        let cap = self.slots.len();
        let ghost before = *self;
        let mut whole = FsmEventQueueHeapless { slots: Vec::new(), head: 0, count: 0 };
        std::mem::swap(self, &mut whole);
        let FsmEventQueueHeapless { mut slots, head, count } = whole;
        let mut item: Option<E> = None;
        slots.set_and_swap(h, &mut item);
        let next = if h + 1 == cap {
            0
        } else {
            h + 1
        };
        let after = FsmEventQueueHeapless { slots, head: next, count: count - 1 };
        proof {
            assert(before.offset_of(h as int) == 0);
            assert(before.slots@[h as int] is Some);
            assert forall|i: int| 0 <= i < after.slots@.len() implies (#[trigger] after.slots@[i] is Some
                <==> after.offset_of(i) < after.count) by {
                if i != h {
                    assert(before.slots@[i] == after.slots@[i]);
                    assert(after.offset_of(i) == before.offset_of(i) - 1);
                }
            }
            assert(after.queued() =~= before.queued().drop_first()) by {
                assert forall|k: int| 0 <= k < after.count implies after.slot_of(k) == before.slot_of(k + 1)
                    && after.slot_of(k) != h by {}
            }
        }
        *self = after;
        match item {
            Some(e) => Some(e),
            None => None,
        }
    }

    fn len(&self) -> (r: usize) {
        proof {
            use_type_invariant(self);
        }
        self.count
    }
}

/// One call on a queue: an enqueue of an event, or a dequeue.
pub enum QueueOp<E> {
    Enqueue(E),
    Dequeue,
}

/// The waiting events after one call on a queue of capacity `cap`.
pub open spec fn step_queue<E>(items: Seq<E>, cap: nat, op: QueueOp<E>) -> Seq<E> {
    match op {
        QueueOp::Enqueue(e) => if items.len() < cap {
            items.push(e)
        } else {
            items
        },
        QueueOp::Dequeue => if items.len() > 0 {
            items.drop_first()
        } else {
            items
        },
    }
}

/// The waiting events after a sequence of calls.
pub open spec fn run_queue<E>(items: Seq<E>, cap: nat, ops: Seq<QueueOp<E>>) -> Seq<E>
    decreases ops.len(),
{
    if ops.len() == 0 {
        items
    } else {
        run_queue(step_queue(items, cap, ops[0]), cap, ops.drop_first())
    }
}

/// The events that the dequeues of a sequence of calls hand out, in order.
pub open spec fn taken<E>(items: Seq<E>, cap: nat, ops: Seq<QueueOp<E>>) -> Seq<E>
    decreases ops.len(),
{
    if ops.len() == 0 {
        Seq::empty()
    } else {
        let rest = taken(step_queue(items, cap, ops[0]), cap, ops.drop_first());
        match ops[0] {
            QueueOp::Dequeue => if items.len() > 0 {
                seq![items[0]] + rest
            } else {
                rest
            },
            QueueOp::Enqueue(_) => rest,
        }
    }
}

/// The events whose enqueue is accepted in a sequence of calls, in order.
pub open spec fn accepted<E>(items: Seq<E>, cap: nat, ops: Seq<QueueOp<E>>) -> Seq<E>
    decreases ops.len(),
{
    if ops.len() == 0 {
        Seq::empty()
    } else {
        let rest = accepted(step_queue(items, cap, ops[0]), cap, ops.drop_first());
        match ops[0] {
            QueueOp::Enqueue(e) => if items.len() < cap {
                seq![e] + rest
            } else {
                rest
            },
            QueueOp::Dequeue => rest,
        }
    }
}

/// One enqueue call for each event, in order.
pub open spec fn enqueue_all<E>(events: Seq<E>) -> Seq<QueueOp<E>> {
    events.map_values(|e: E| QueueOp::Enqueue(e))
}

/// Each call on a bounded queue is one step of the model: what the queue
/// holds afterwards is `step_queue` of what it held, and an enqueue
/// succeeds exactly when the model accepts it.
pub proof fn lemma_bounded_step<E, Q: FsmEventQueue<E>>(before: Q, after: Q, op: QueueOp<E>, r: bool)
    requires
        before.retains(),
        before.capacity() is Some,
        op matches QueueOp::Enqueue(e) ==> {
            &&& r <==> (before.capacity() matches Some(c) ==> before.queued().len() < c)
            &&& after.queued() == (if r { before.queued().push(e) } else { before.queued() })
        },
        op matches QueueOp::Dequeue ==> after.queued() == (if before.queued().len() > 0 {
            before.queued().drop_first()
        } else {
            before.queued()
        }),
    ensures
        after.queued() == step_queue(before.queued(), before.capacity()->Some_0, op),
        op is Enqueue ==> (r <==> before.queued().len() < before.capacity()->Some_0),
{
}

/// FIFO law: over any interleaving of calls, the events handed out followed
/// by those still waiting are exactly those that were waiting followed by
/// those accepted, in order.
pub proof fn lemma_fifo<E>(items: Seq<E>, cap: nat, ops: Seq<QueueOp<E>>)
    ensures
        items + accepted(items, cap, ops) == taken(items, cap, ops) + run_queue(items, cap, ops),
    decreases ops.len(),
{
    if ops.len() > 0 {
        let next = step_queue(items, cap, ops[0]);
        lemma_fifo(next, cap, ops.drop_first());
        match ops[0] {
            QueueOp::Enqueue(e) => {
                if items.len() < cap {
                    assert(items + (seq![e] + accepted(next, cap, ops.drop_first())) =~= next
                        + accepted(next, cap, ops.drop_first()));
                }
            },
            QueueOp::Dequeue => {
                if items.len() > 0 {
                    assert(items + accepted(next, cap, ops.drop_first()) =~= seq![items[0]] + (next
                        + accepted(next, cap, ops.drop_first())));
                    assert(seq![items[0]] + taken(next, cap, ops.drop_first()) + run_queue(
                        next,
                        cap,
                        ops.drop_first(),
                    ) =~= seq![items[0]] + (taken(next, cap, ops.drop_first()) + run_queue(
                        next,
                        cap,
                        ops.drop_first(),
                    )));
                }
            },
        }
    } else {
        assert(items + Seq::<E>::empty() =~= Seq::<E>::empty() + items);
    }
}

/// Enqueues that fit are all accepted and appended in order.
pub proof fn lemma_enqueue_fitting<E>(items: Seq<E>, cap: nat, events: Seq<E>)
    requires
        items.len() + events.len() <= cap,
    ensures
        run_queue(items, cap, enqueue_all(events)) == items + events,
        accepted(items, cap, enqueue_all(events)) == events,
    decreases events.len(),
{
    let ops = enqueue_all(events);
    if events.len() == 0 {
        assert(items + events =~= items);
    } else {
        assert(ops.drop_first() =~= enqueue_all(events.drop_first()));
        assert(ops[0] == QueueOp::Enqueue(events[0]));
        lemma_enqueue_fitting(items.push(events[0]), cap, events.drop_first());
        assert(items.push(events[0]) + events.drop_first() =~= items + events);
        assert(seq![events[0]] + events.drop_first() =~= events);
    }
}

/// Capacity accounting: on an empty queue of capacity `cap`, `cap` enqueues
/// are accepted; the next one is refused; after one dequeue exactly one
/// more enqueue is accepted.
pub proof fn lemma_capacity_accounting<E>(cap: nat, events: Seq<E>, extra: E, again: E)
    requires
        events.len() == cap,
    ensures
        accepted(Seq::empty(), cap, enqueue_all(events)) == events,
        run_queue(Seq::empty(), cap, enqueue_all(events)) == events,
        accepted(events, cap, seq![QueueOp::Enqueue(extra)]) == Seq::<E>::empty(),
        cap > 0 ==> accepted(
            events,
            cap,
            seq![QueueOp::Dequeue, QueueOp::Enqueue(extra), QueueOp::Enqueue(again)],
        ) == seq![extra],
{
    lemma_enqueue_fitting(Seq::empty(), cap, events);
    assert(Seq::<E>::empty() + events =~= events);
    let one = seq![QueueOp::Enqueue(extra)];
    assert(one.drop_first() =~= Seq::<QueueOp<E>>::empty());
    assert(one[0] == QueueOp::Enqueue(extra));
    assert(step_queue(events, cap, one[0]) == events);
    assert(accepted(events, cap, one.drop_first()) == Seq::<E>::empty());
    if cap > 0 {
        let ops = seq![QueueOp::Dequeue, QueueOp::Enqueue(extra), QueueOp::Enqueue(again)];
        let s1 = events.drop_first();
        let s2 = s1.push(extra);
        assert(ops.drop_first() =~= seq![QueueOp::Enqueue(extra), QueueOp::Enqueue(again)]);
        assert(ops.drop_first().drop_first() =~= seq![QueueOp::Enqueue(again)]);
        assert(ops.drop_first().drop_first().drop_first() =~= Seq::<QueueOp<E>>::empty());
        let last = seq![QueueOp::Enqueue(again)];
        assert(last[0] == QueueOp::Enqueue(again));
        assert(last.drop_first() =~= Seq::<QueueOp<E>>::empty());
        assert(s2.len() == cap);
        assert(step_queue(s2, cap, last[0]) == s2);
        assert(accepted(s2, cap, last.drop_first()) == Seq::<E>::empty());
        assert(accepted(s2, cap, last) == Seq::<E>::empty());
        assert(ops[0] == QueueOp::<E>::Dequeue);
        assert(ops.drop_first()[0] == QueueOp::Enqueue(extra));
        assert(step_queue(events, cap, ops[0]) == s1);
        assert(step_queue(s1, cap, ops.drop_first()[0]) == s2);
        assert(accepted(s1, cap, ops.drop_first()) == seq![extra] + accepted(
            s2,
            cap,
            ops.drop_first().drop_first(),
        ));
        assert(accepted(events, cap, ops) == accepted(s1, cap, ops.drop_first()));
        assert(seq![extra] + Seq::<E>::empty() =~= seq![extra]);
    }
}

} // verus!
