//! The bounded hand-off between the traversal and the deletion stage: a
//! first-in, first-out buffer of fixed capacity with an end-of-stream signal.

use std::collections::VecDeque;
use vstd::prelude::*;

use crate::detectors::Deletable;
use crate::detectors::DeletableView;

verus! {

/// What a `BoundedPipeline` stands for: the deletables in flight, the oldest
/// first, the capacity, and whether the sender has signalled the end.
pub struct PipelineView {
    pub items: Seq<DeletableView>,
    pub capacity: nat,
    pub closed: bool,
}

impl PipelineView {
    /// The pipeline after an attempt to put `item`: it joins the back unless
    /// the pipeline is closed or full.
    pub open spec fn put(self, item: DeletableView) -> PipelineView {
        if self.closed || self.items.len() >= self.capacity {
            self
        } else {
            PipelineView { items: self.items.push(item), ..self }
        }
    }

    /// The pipeline after an attempt to get: the oldest item has left, if
    /// there was one.
    pub open spec fn get(self) -> PipelineView {
        if self.items.len() > 0 {
            PipelineView { items: self.items.drop_first(), ..self }
        } else {
            self
        }
    }

    /// The pipeline after the end-of-stream signal: what is in flight stays.
    pub open spec fn close(self) -> PipelineView {
        PipelineView { closed: true, ..self }
    }

    /// No more is in flight than the capacity allows.
    pub open spec fn bounded(self) -> bool {
        self.items.len() <= self.capacity
    }

    /// A pipeline that is within its capacity stays so, whatever is put,
    /// taken or signalled.
    pub proof fn lemma_stays_bounded(self, item: DeletableView)
        requires
            self.bounded(),
        ensures
            self.put(item).bounded(),
            self.get().bounded(),
            self.close().bounded(),
    {
    }
}

/// What became of a deletable that was put.
pub enum Put {
    /// It is in the pipeline.
    Accepted,
    /// The pipeline is full: the sender holds the deletable until there is
    /// room.
    Full(Deletable),
    /// The pipeline is closed: the deletable comes back for good.
    Closed(Deletable),
}

/// What a receiver got.
pub enum Get {
    /// The oldest deletable in flight.
    Item(Deletable),
    /// Nothing is in flight, and the sender is still running.
    Empty,
    /// Nothing is in flight, and the sender has finished.
    Finished,
}

/// A fixed-capacity first-in, first-out hand-off with an explicit
/// end-of-stream signal.
pub struct BoundedPipeline {
    items: VecDeque<Deletable>,
    capacity: usize,
    closed: bool,
}

impl View for BoundedPipeline {
    type V = PipelineView;

    closed spec fn view(&self) -> PipelineView {
        PipelineView {
            items: self.items@.map_values(|d: Deletable| d@),
            capacity: self.capacity as nat,
            closed: self.closed,
        }
    }
}

impl BoundedPipeline {
    /// An open, empty pipeline that holds up to `capacity` deletables.
    pub fn new(capacity: usize) -> (pipeline: BoundedPipeline)
        ensures
            pipeline@ == (PipelineView {
                items: Seq::empty(),
                capacity: capacity as nat,
                closed: false,
            }),
    {
        let pipeline = BoundedPipeline { items: VecDeque::new(), capacity, closed: false };
        assert(pipeline@.items =~= Seq::empty());
        pipeline
    }

    /// How many deletables the pipeline holds at most.
    pub fn capacity(&self) -> (capacity: usize)
        ensures
            capacity == self@.capacity,
    {
        self.capacity
    }

    /// How many deletables are in flight.
    pub fn len(&self) -> (len: usize)
        ensures
            len == self@.items.len(),
    {
        self.items.len()
    }

    /// Whether the end of the stream has been signalled.
    pub fn is_closed(&self) -> (closed: bool)
        ensures
            closed == self@.closed,
    {
        self.closed
    }

    /// Puts `item` at the back. A closed or full pipeline takes nothing and
    /// hands the item back, saying which of the two it is.
    pub fn put(&mut self, item: Deletable) -> (put: Put)
        ensures
            final(self)@ == old(self)@.put(item@),
            match put {
                Put::Accepted => !old(self)@.closed && old(self)@.items.len()
                    < old(self)@.capacity,
                Put::Full(back) => !old(self)@.closed && old(self)@.items.len()
                    >= old(self)@.capacity && back@ == item@,
                Put::Closed(back) => old(self)@.closed && back@ == item@,
            },
    {
        if self.closed {
            Put::Closed(item)
        } else if self.items.len() >= self.capacity {
            Put::Full(item)
        } else {
            self.items.push_back(item);
            assert(self@.items =~= old(self)@.items.push(item@));
            Put::Accepted
        }
    }

    /// Takes the oldest deletable in flight. Where there is none, says
    /// whether the sender may still send.
    pub fn get(&mut self) -> (got: Get)
        ensures
            final(self)@ == old(self)@.get(),
            match got {
                Get::Item(item) => old(self)@.items.len() > 0 && item@ == old(self)@.items[0],
                Get::Empty => old(self)@.items.len() == 0 && !old(self)@.closed,
                Get::Finished => old(self)@.items.len() == 0 && old(self)@.closed,
            },
    {
        match self.items.pop_front() {
            Some(item) => {
                assert(self@.items =~= old(self)@.items.drop_first());
                Get::Item(item)
            },
            None => {
                if self.closed {
                    Get::Finished
                } else {
                    Get::Empty
                }
            },
        }
    }

    /// Signals the end of the stream. What is in flight can still be taken.
    pub fn close(&mut self)
        ensures
            final(self)@ == old(self)@.close(),
    {
        self.closed = true;
    }
}

} // verus!
