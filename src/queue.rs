use vstd::prelude::*;
use std::collections::VecDeque;

verus! {

/// Why nothing could be read.
#[derive(Clone, Copy, Debug, PartialEq, Eq, Structural)]
pub enum ReadErr {
    /// Nothing is queued.
    Empty,
    /// Nothing is queued and no writer is left.
    Finished,
}

/// Why a value could not be written; the value comes back.
#[derive(Debug)]
pub enum WriteErr<T> {
    /// No reader is left.
    Finished(T),
    /// The queue is at its capacity.
    Full(T),
}

pub type ReadResult<T> = Result<T, ReadErr>;

pub type WriteResult<T> = Result<(), WriteErr<T>>;

/// The reading end of a FIFO queue.
pub trait Rx<T> {
    /// The values queued, oldest first.
    spec fn unread(&self) -> Seq<T>;

    /// Takes the oldest value.
    fn recv(&mut self) -> (r: ReadResult<T>)
        ensures
            old(self).unread().len() > 0 ==> r == Ok::<T, ReadErr>(old(self).unread()[0])
                && final(self).unread() == old(self).unread().drop_first(),
            old(self).unread().len() == 0 ==> r == Err::<T, ReadErr>(ReadErr::Empty)
                && final(self).unread() == old(self).unread(),
    ;
}

/// The writing end of a FIFO queue.
pub trait Tx<T> {
    /// The values queued, oldest first.
    spec fn queued(&self) -> Seq<T>;

    /// True when one more value fits.
    spec fn has_room(&self) -> bool;

    /// Queues `value` behind the others, or hands it back when there is no room.
    fn send(&mut self, value: T) -> (r: WriteResult<T>)
        ensures
            old(self).has_room() ==> r is Ok && final(self).queued() == old(self).queued().push(
                value,
            ),
            !old(self).has_room() ==> (r matches Err(WriteErr::Full(v)) && v == value),
            !old(self).has_room() ==> final(self).queued() == old(self).queued(),
    ;
}

/// A FIFO queue without a bound.
pub struct Unbounded<T> {
    queue: VecDeque<T>,
}

impl<T> Unbounded<T> {
    pub closed spec fn contents(&self) -> Seq<T> {
        self.queue@
    }

    /// An empty queue.
    pub fn new() -> (r: Self)
        ensures
            r.contents() == Seq::<T>::empty(),
    {
        Unbounded { queue: VecDeque::new() }
    }

    pub fn len(&self) -> (r: usize)
        ensures
            r == self.contents().len(),
    {
        self.queue.len()
    }
}

impl<T> Default for Unbounded<T> {
    fn default() -> (r: Self)
        ensures
            r.contents() == Seq::<T>::empty(),
    {
        Unbounded::new()
    }
}

impl<T> Tx<T> for Unbounded<T> {
    closed spec fn queued(&self) -> Seq<T> {
        self.queue@
    }

    closed spec fn has_room(&self) -> bool {
        true
    }

    fn send(&mut self, value: T) -> (r: WriteResult<T>) {
        self.queue.push_back(value);
        Ok(())
    }
}

impl<T> Rx<T> for Unbounded<T> {
    closed spec fn unread(&self) -> Seq<T> {
        self.queue@
    }

    fn recv(&mut self) -> (r: ReadResult<T>) {
        match self.queue.pop_front() {
            Some(v) => Ok(v),
            None => Err(ReadErr::Empty),
        }
    }
}

/// A FIFO queue that holds at most `capacity` values.
pub struct Bounded<T> {
    queue: VecDeque<T>,
    capacity: usize,
}

impl<T> Bounded<T> {
    pub closed spec fn contents(&self) -> Seq<T> {
        self.queue@
    }

    pub closed spec fn spec_capacity(&self) -> nat {
        self.capacity as nat
    }

    /// An empty queue for at most `capacity` values.
    pub fn with_capacity(capacity: usize) -> (r: Self)
        ensures
            r.contents() == Seq::<T>::empty(),
            r.spec_capacity() == capacity,
    {
        Bounded { queue: VecDeque::with_capacity(capacity), capacity }
    }

    pub fn len(&self) -> (r: usize)
        ensures
            r == self.contents().len(),
    {
        self.queue.len()
    }
}

impl<T> Tx<T> for Bounded<T> {
    closed spec fn queued(&self) -> Seq<T> {
        self.queue@
    }

    closed spec fn has_room(&self) -> bool {
        self.queue@.len() < self.capacity
    }

    fn send(&mut self, value: T) -> (r: WriteResult<T>) {
        if self.queue.len() >= self.capacity {
            return Err(WriteErr::Full(value));
        }
        self.queue.push_back(value);
        Ok(())
    }
}

impl<T> Rx<T> for Bounded<T> {
    closed spec fn unread(&self) -> Seq<T> {
        self.queue@
    }

    fn recv(&mut self) -> (r: ReadResult<T>) {
        match self.queue.pop_front() {
            Some(v) => Ok(v),
            None => Err(ReadErr::Empty),
        }
    }
}

/// A context's queue of deferred work: one producer and one consumer, first in
/// first out, without a bound.
pub struct LocalQueue<T> {
    items: VecDeque<T>,
}

impl<T> LocalQueue<T> {
    pub closed spec fn pending(&self) -> Seq<T> {
        self.items@
    }

    /// An empty queue.
    pub fn unbounded() -> (r: Self)
        ensures
            r.pending() == Seq::<T>::empty(),
    {
        LocalQueue { items: VecDeque::new() }
    }

    /// Queues `value` behind the others.
    pub fn send(&mut self, value: T)
        ensures
            final(self).pending() == old(self).pending().push(value),
    {
        self.items.push_back(value);
    }

    /// Takes the oldest value, if any.
    pub fn recv(&mut self) -> (r: Option<T>)
        ensures
            old(self).pending().len() > 0 ==> r == Some(old(self).pending()[0])
                && final(self).pending() == old(self).pending().drop_first(),
            old(self).pending().len() == 0 ==> r is None && final(self).pending() == old(
                self,
            ).pending(),
    {
        self.items.pop_front()
    }

    pub fn is_empty(&self) -> (r: bool)
        ensures
            r <==> self.pending().len() == 0,
    {
        self.items.len() == 0
    }
}

impl<T> Default for LocalQueue<T> {
    fn default() -> (r: Self)
        ensures
            r.pending() == Seq::<T>::empty(),
    {
        LocalQueue::unbounded()
    }
}

} // verus!
