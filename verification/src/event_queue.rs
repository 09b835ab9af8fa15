use vstd::prelude::*;
use crate::error::{DexError, EventError};
use crate::state::{EventQueue, QueueEvent, EVENT_QUEUE_CAPACITY};

verus! {

/// The slot that lies `offset` slots behind slot 0, for an offset of less
/// than two turns of the ring.
pub open spec fn ring_slot(offset: int) -> int {
    if offset >= EVENT_QUEUE_CAPACITY {
        offset - EVENT_QUEUE_CAPACITY
    } else {
        offset
    }
}

/// The newest `EVENT_QUEUE_CAPACITY` events of `events`.
pub open spec fn retain_latest(events: Seq<QueueEvent>) -> Seq<QueueEvent> {
    if events.len() > EVENT_QUEUE_CAPACITY {
        events.skip(events.len() - EVENT_QUEUE_CAPACITY)
    } else {
        events
    }
}

/// The unread events after `event` was recorded: it joins at the back, and
/// the oldest one is dropped if the queue was full.
pub open spec fn recorded(pending: Seq<QueueEvent>, event: QueueEvent) -> Seq<QueueEvent> {
    retain_latest(pending.push(event))
}

/// The unread events after the events of `batch` were recorded one by one.
pub open spec fn recorded_all(pending: Seq<QueueEvent>, batch: Seq<QueueEvent>) -> Seq<QueueEvent>
    decreases batch.len(),
{
    if batch.len() == 0 {
        pending
    } else {
        recorded_all(recorded(pending, batch[0]), batch.drop_first())
    }
}

/// Some stored event carries `order_id`.
pub open spec fn has_event(events: Seq<QueueEvent>, order_id: u64) -> bool {
    exists|i: int| 0 <= i < events.len() && (#[trigger] events[i]).order_id == order_id
}

/// The first position at or after `from` whose event carries `order_id`, or
/// the length if there is none.
pub open spec fn first_event_with_id(events: Seq<QueueEvent>, order_id: u64, from: int) -> int
    decreases events.len() - from,
{
    if from >= events.len() || events[from].order_id == order_id {
        from
    } else {
        first_event_with_id(events, order_id, from + 1)
    }
}

proof fn lemma_first_event_with_id(events: Seq<QueueEvent>, order_id: u64, r: int, from: int)
    requires
        0 <= from <= r <= events.len(),
        forall|j: int| 0 <= j < r ==> (#[trigger] events[j]).order_id != order_id,
        r < events.len() ==> events[r].order_id == order_id,
    ensures
        first_event_with_id(events, order_id, from) == r,
    decreases r - from,
{
    if from < r {
        lemma_first_event_with_id(events, order_id, r, from + 1);
    }
}

/// Recording a batch keeps the newest events of the old ones followed by the
/// batch, whatever the size of the batch.
pub proof fn lemma_recorded_all(pending: Seq<QueueEvent>, batch: Seq<QueueEvent>)
    requires
        pending.len() <= EVENT_QUEUE_CAPACITY,
    ensures
        recorded_all(pending, batch) == retain_latest(pending + batch),
        recorded_all(pending, batch).len() <= EVENT_QUEUE_CAPACITY,
    decreases batch.len(),
{
    if batch.len() == 0 {
        assert(pending + batch =~= pending);
    } else {
        let step = recorded(pending, batch[0]);
        lemma_recorded_all(step, batch.drop_first());
        assert(retain_latest(step + batch.drop_first()) =~= retain_latest(pending + batch));
    }
}

/// Recording one more event after a batch is recording the longer batch.
pub proof fn lemma_recorded_push(
    pending: Seq<QueueEvent>,
    batch: Seq<QueueEvent>,
    event: QueueEvent,
)
    requires
        pending.len() <= EVENT_QUEUE_CAPACITY,
    ensures
        recorded_all(pending, batch.push(event)) == recorded(recorded_all(pending, batch), event),
{
    lemma_recorded_all(pending, batch);
    lemma_recorded_all(pending, batch.push(event));
    assert(pending + batch.push(event) =~= (pending + batch).push(event));
    assert(retain_latest((pending + batch).push(event)) =~= retain_latest(
        retain_latest(pending + batch).push(event),
    ));
}

/// Recording one event more than the queue holds, into any queue, leaves
/// exactly the last `EVENT_QUEUE_CAPACITY` of them unread, in order: the
/// queue is full and the first event recorded is gone.
pub proof fn lemma_overflow_drops_oldest(pending: Seq<QueueEvent>, batch: Seq<QueueEvent>)
    requires
        pending.len() <= EVENT_QUEUE_CAPACITY,
        batch.len() == EVENT_QUEUE_CAPACITY + 1,
    ensures
        recorded_all(pending, batch) == batch.skip(1),
        recorded_all(pending, batch).len() == EVENT_QUEUE_CAPACITY,
        forall|i: int|
            0 <= i < EVENT_QUEUE_CAPACITY ==> #[trigger] recorded_all(pending, batch)[i] == batch[i
                + 1],
{
    lemma_recorded_all(pending, batch);
    assert(retain_latest(pending + batch) =~= batch.skip(1));
}

impl EventQueue {
    /// The number of events the queue retains.
    pub const CAPACITY: usize = 32;

    /// The invariant of the ring: while the storage is still growing, the
    /// unread events are its last `count` slots and `head` is its length;
    /// once it has reached capacity, `head` and `tail` are slots and `head`
    /// lies `count` slots behind `tail`, wrapping around.
    pub open spec fn wf(&self) -> bool {
        let len = self.events@.len();
        &&& len <= EVENT_QUEUE_CAPACITY
        &&& self.count <= len
        &&& if len < EVENT_QUEUE_CAPACITY {
            self.head == len && self.tail + self.count == len
        } else {
            &&& self.head < EVENT_QUEUE_CAPACITY
            &&& self.tail < EVENT_QUEUE_CAPACITY
            &&& ring_slot(self.tail + self.count) == self.head
        }
    }

    /// The unread events, oldest first.
    pub open spec fn pending(&self) -> Seq<QueueEvent> {
        Seq::new(
            self.count as nat,
            |i: int| self.events@[ring_slot(self.tail + i)],
        )
    }

    /// An empty queue.
    pub fn new() -> (r: EventQueue)
        ensures
            r.wf(),
            r.pending() == Seq::<QueueEvent>::empty(),
            r.events@.len() == 0,
    {
        EventQueue { head: 0, tail: 0, count: 0, events: Vec::new() }
    }

    /// Looks up the first stored event of the order `order_id`, among all
    /// slots of the ring in storage order.
    pub fn get_event_by_order_id(&self, order_id: &u64) -> (r: Result<
        Option<&QueueEvent>,
        DexError,
    >)
        ensures
            match r {
                Ok(found) => has_event(self.events@, *order_id) && found == Some(
                    &self.events@[first_event_with_id(self.events@, *order_id, 0)],
                ),
                Err(e) => !has_event(self.events@, *order_id) && e == DexError::Event(
                    EventError::OrderNotFound,
                ),
            },
    {
        let n = self.events.len();
        let mut i: usize = 0;
        while i < n
            invariant
                n == self.events@.len(),
                i <= n,
                forall|j: int| 0 <= j < i ==> (#[trigger] self.events@[j]).order_id != *order_id,
            decreases n - i,
        {
            if self.events[i].order_id == *order_id {
                proof {
                    lemma_first_event_with_id(self.events@, *order_id, i as int, 0);
                }
                return Ok(Some(&self.events[i]));
            }
            i += 1;
        }
        Err(DexError::Event(EventError::OrderNotFound))
    }

    /// Records `event` as the newest one. A full queue drops its oldest
    /// unread event to make room; recording never fails.
    pub fn insert_event(&mut self, event: QueueEvent) -> (r: Result<(), DexError>)
        requires
            old(self).wf(),
        ensures
            r == Ok::<(), DexError>(()),
            final(self).wf(),
            final(self).pending() == recorded(old(self).pending(), event),
            final(self).events@ == if old(self).events@.len() < EVENT_QUEUE_CAPACITY {
                old(self).events@.push(event)
            } else {
                old(self).events@.update(old(self).head as int, event)
            },
            final(self).head == ring_slot(old(self).head + 1),
            final(self).tail == if old(self).count == EVENT_QUEUE_CAPACITY {
                ring_slot(old(self).tail + 1)
            } else {
                old(self).tail as int
            },
            final(self).count == if old(self).count == EVENT_QUEUE_CAPACITY {
                old(self).count as int
            } else {
                old(self).count + 1
            },
    {
        if self.count == EVENT_QUEUE_CAPACITY as u32 {
            self.tail = (self.tail + 1) % (EVENT_QUEUE_CAPACITY as u32);
        } else {
            self.count += 1;
        }
        if self.events.len() < EVENT_QUEUE_CAPACITY {
            self.events.push(event);
        } else {
            self.events[self.head as usize] = event;
        }
        self.head = (self.head + 1) % (EVENT_QUEUE_CAPACITY as u32);
        proof {
            let before = old(self).pending();
            let after = recorded(before, event);
            assert(self.pending().len() == after.len());
            assert forall|i: int| 0 <= i < after.len() implies self.pending()[i] == after[i] by {
                if old(self).count == EVENT_QUEUE_CAPACITY {
                    assert(after[i] == before.push(event)[i + 1]);
                } else {
                    assert(after[i] == before.push(event)[i]);
                }
            }
            assert(self.pending() =~= after);
        }
        Ok(())
    }

    /// Takes the oldest unread event out of the queue.
    pub fn pop_front(&mut self) -> (r: Option<QueueEvent>)
        requires
            old(self).wf(),
        ensures
            final(self).wf(),
            match r {
                Some(event) => {
                    &&& old(self).pending().len() > 0
                    &&& event == old(self).pending()[0]
                    &&& final(self).pending() == old(self).pending().drop_first()
                    &&& final(self).events@ == old(self).events@
                    &&& final(self).head == old(self).head
                    &&& final(self).tail == ring_slot(old(self).tail + 1)
                    &&& final(self).count == old(self).count - 1
                },
                None => old(self).pending().len() == 0 && *final(self) == *old(self),
            },
    {
        if self.count == 0 {
            return None;
        }
        let event = self.events[self.tail as usize];
        self.tail = (self.tail + 1) % (EVENT_QUEUE_CAPACITY as u32);
        self.count -= 1;
        proof {
            let before = old(self).pending();
            assert forall|i: int| 0 <= i < before.len() - 1 implies self.pending()[i]
                == before.drop_first()[i] by {
                assert(before.drop_first()[i] == before[i + 1]);
            }
            assert(self.pending() =~= before.drop_first());
        }
        Some(event)
    }

    /// The oldest unread event, left in the queue.
    pub fn peek(&self) -> (r: Option<&QueueEvent>)
        requires
            self.wf(),
        ensures
            match r {
                Some(event) => self.pending().len() > 0 && *event == self.pending()[0],
                None => self.pending().len() == 0,
            },
    {
        if self.count == 0 {
            return None;
        }
        Some(&self.events[self.tail as usize])
    }

    /// A copy of the queue, slot for slot.
    pub fn snapshot(&self) -> (r: EventQueue)
        ensures
            r.events@ == self.events@,
            r.head == self.head,
            r.tail == self.tail,
            r.count == self.count,
            r.pending() == self.pending(),
            r.wf() == self.wf(),
    {
        let mut events: Vec<QueueEvent> = Vec::new();
        let n = self.events.len();
        let mut i: usize = 0;
        while i < n
            invariant
                n == self.events@.len(),
                i <= n,
                events@ == self.events@.take(i as int),
            decreases n - i,
        {
            events.push(self.events[i]);
            proof {
                assert(self.events@.take(i + 1) =~= self.events@.take(i as int).push(
                    self.events@[i as int],
                ));
            }
            i += 1;
        }
        proof {
            assert(self.events@.take(n as int) =~= self.events@);
        }
        EventQueue { head: self.head, tail: self.tail, count: self.count, events }
    }

    /// Tests the invariant of the ring.
    pub fn is_well_formed(&self) -> (r: bool)
        ensures
            r == self.wf(),
    {
        let len = self.events.len();
        if len > EVENT_QUEUE_CAPACITY || self.count as usize > len {
            return false;
        }
        let end = self.tail as u64 + self.count as u64;
        if len < EVENT_QUEUE_CAPACITY {
            self.head as usize == len && end == len as u64
        } else {
            let capacity = EVENT_QUEUE_CAPACITY as u64;
            let slot = if end >= capacity {
                end - capacity
            } else {
                end
            };
            (self.head as u64) < capacity && (self.tail as u64) < capacity && slot
                == self.head as u64
        }
    }
}

} // verus!
