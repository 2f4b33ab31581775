//! The bounded queue between the walker and the emitter: first in, first
//! out, with room for a fixed number of items.
//!
//! The queue decides and never waits. Where it answers that it is full or
//! empty, whoever drives it waits and asks again.

use vstd::prelude::*;
use std::collections::VecDeque;

verus! {

/// The room that a queue has where nothing else is asked for.
pub const DEFAULT_CAPACITY: usize = 1024;

/// A queue as a value.
pub struct QueueState<T> {
    /// The items waiting, the oldest first.
    pub items: Seq<T>,
    /// The number of items that there is room for.
    pub capacity: nat,
    /// The sending side has finished: nothing more will be put in.
    pub closed: bool,
    /// The receiving side has gone: nothing more will be taken out.
    pub disconnected: bool,
}

impl<T> QueueState<T> {
    /// The answer to an offer of `item`.
    pub open spec fn answer_to_offer(self, item: T) -> Offer<T> {
        if self.disconnected {
            Offer::Disconnected(item)
        } else if self.items.len() >= self.capacity {
            Offer::Full(item)
        } else {
            Offer::Accepted
        }
    }

    /// The queue after an offer of `item`: with the item behind the others
    /// where it is accepted, and unchanged where it is not.
    pub open spec fn after_offer(self, item: T) -> Self {
        if self.answer_to_offer(item) == Offer::<T>::Accepted {
            QueueState { items: self.items.push(item), ..self }
        } else {
            self
        }
    }

    /// The answer to an attempt to take an item out.
    pub open spec fn answer_to_take(self) -> Take<T> {
        if self.items.len() > 0 {
            Take::Item(self.items[0])
        } else if self.closed {
            Take::Finished
        } else {
            Take::Empty
        }
    }

    /// The queue after an attempt to take an item out: without its oldest
    /// item where it had one.
    pub open spec fn after_take(self) -> Self {
        if self.items.len() > 0 {
            QueueState { items: self.items.drop_first(), ..self }
        } else {
            self
        }
    }

    /// The queue after its sending side has finished.
    pub open spec fn after_close(self) -> Self {
        QueueState { closed: true, ..self }
    }

    /// The queue after its receiving side has gone: what waited is
    /// dropped.
    pub open spec fn after_disconnect(self) -> Self {
        QueueState { items: Seq::empty(), disconnected: true, ..self }
    }
}

/// The answer to an attempt to put an item in.
#[derive(Debug)]
pub enum Offer<T> {
    /// The item is in the queue.
    Accepted,
    /// There is no room: the item comes back, to be offered again later.
    Full(T),
    /// The receiving side has gone: the item comes back for good.
    Disconnected(T),
}

/// The answer to an attempt to take an item out.
#[derive(Debug)]
pub enum Take<T> {
    /// The oldest item.
    Item(T),
    /// Nothing is waiting, but more may come.
    Empty,
    /// Nothing is waiting and nothing more will come.
    Finished,
}

/// A bounded first-in-first-out queue.
pub struct BoundedQueue<T> {
    items: VecDeque<T>,
    capacity: usize,
    closed: bool,
    disconnected: bool,
}

impl<T> View for BoundedQueue<T> {
    type V = QueueState<T>;

    closed spec fn view(&self) -> QueueState<T> {
        QueueState {
            items: self.items@,
            capacity: self.capacity as nat,
            closed: self.closed,
            disconnected: self.disconnected,
        }
    }
}

impl<T> BoundedQueue<T> {
    /// There is room for at least one item, and no more items wait than
    /// there is room for.
    #[verifier::type_invariant]
    spec fn within_capacity(self) -> bool {
        0 < self.capacity && self.items@.len() <= self.capacity
    }

    /// An empty queue with room for `capacity` items.
    pub fn new(capacity: usize) -> (q: BoundedQueue<T>)
        requires
            capacity > 0,
        ensures
            q@ == (QueueState {
                items: Seq::<T>::empty(),
                capacity: capacity as nat,
                closed: false,
                disconnected: false,
            }),
    {
        BoundedQueue { items: VecDeque::new(), capacity, closed: false, disconnected: false }
    }

    /// The number of items waiting.
    pub fn len(&self) -> (n: usize)
        ensures
            n == self@.items.len(),
            n <= self@.capacity,
            self@.capacity > 0,
    {
        proof {
            use_type_invariant(self);
        }
        self.items.len()
    }

    /// Offers an item. It is refused for good where the receiving side has
    /// gone, refused for now where the queue is full, and otherwise put
    /// behind the items that wait.
    pub fn offer(&mut self, item: T) -> (answer: Offer<T>)
        ensures
            answer == old(self)@.answer_to_offer(item),
            final(self)@ == old(self)@.after_offer(item),
    {
        proof {
            use_type_invariant(&*self);
        }
        if self.disconnected {
            Offer::Disconnected(item)
        } else if self.items.len() >= self.capacity {
            Offer::Full(item)
        } else {
            let mut items: VecDeque<T> = VecDeque::new();
            core::mem::swap(&mut self.items, &mut items);
            items.push_back(item);
            core::mem::swap(&mut self.items, &mut items);
            Offer::Accepted
        }
    }

    /// Takes the oldest item out. Where nothing waits, says whether more
    /// may come.
    pub fn take(&mut self) -> (answer: Take<T>)
        ensures
            answer == old(self)@.answer_to_take(),
            final(self)@ == old(self)@.after_take(),
    {
        proof {
            use_type_invariant(&*self);
        }
        let mut items: VecDeque<T> = VecDeque::new();
        core::mem::swap(&mut self.items, &mut items);
        let oldest = items.pop_front();
        core::mem::swap(&mut self.items, &mut items);
        match oldest {
            Some(item) => {
                assert(self.items@ =~= old(self).items@.drop_first());
                Take::Item(item)
            },
            None => if self.closed {
                Take::Finished
            } else {
                Take::Empty
            },
        }
    }

    /// Ends the sending side: what waits can still be taken out, and then
    /// the queue is finished.
    pub fn close(&mut self)
        ensures
            final(self)@ == old(self)@.after_close(),
    {
        proof {
            use_type_invariant(&*self);
        }
        self.closed = true;
    }

    /// Ends the receiving side: what waits is dropped, and every later
    /// offer is refused for good.
    pub fn disconnect(&mut self)
        ensures
            final(self)@ == old(self)@.after_disconnect(),
    {
        proof {
            use_type_invariant(&*self);
        }
        self.items = VecDeque::new();
        self.disconnected = true;
    }
}

} // verus!
