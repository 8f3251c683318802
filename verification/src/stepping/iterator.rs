use vstd::prelude::*;

use crate::step::StepEvent;

verus! {

/// Resumable iterator for synchronous stepping through algorithm execution.
///
/// Wraps a pre-computed list of [`StepEvent`]s and yields them one at a time,
/// allowing callers to pause, inspect, and resume event streams without
/// re-execution.
#[derive(Debug)]
pub struct StepIterator<Q> {
    events: Vec<StepEvent<Q>>,
    position: usize,
}

impl<Q> StepIterator<Q> {
    #[verifier::type_invariant]
    spec fn position_in_range(self) -> bool {
        self.position <= self.events.len()
    }

    /// The events, in order.
    pub closed spec fn spec_events(&self) -> Seq<StepEvent<Q>> {
        self.events@
    }

    /// The number of events consumed so far.
    pub closed spec fn spec_position(&self) -> nat {
        self.position as nat
    }

    /// Creates a new step iterator from a list of events.
    pub fn new(events: Vec<StepEvent<Q>>) -> (it: Self)
        ensures
            it.spec_events() == events@,
            it.spec_position() == 0,
    {
        StepIterator { events, position: 0 }
    }

    /// Returns the current position within the event stream.
    pub fn position(&self) -> (r: usize)
        ensures
            r == self.spec_position(),
            r <= self.spec_events().len(),
    {
        proof {
            use_type_invariant(self);
        }
        self.position
    }

    /// Returns `true` if there are more events to consume.
    pub fn has_next(&self) -> (r: bool)
        ensures
            r == (self.spec_position() < self.spec_events().len()),
    {
        self.position < self.events.len()
    }
}

impl<Q: Clone> StepIterator<Q> {
    /// Yields the next event (a clone of it), or `None` once all events are consumed.
    pub fn next(&mut self) -> (r: Option<StepEvent<Q>>)
        ensures
            final(self).spec_events() == old(self).spec_events(),
            old(self).spec_position() < old(self).spec_events().len() ==> r is Some
                && final(self).spec_position() == old(self).spec_position() + 1
                && vstd::pervasive::cloned(
                old(self).spec_events()[old(self).spec_position() as int],
                r->0,
            ),
            old(self).spec_position() >= old(self).spec_events().len() ==> r is None
                && final(self).spec_position() == old(self).spec_position(),
    {
        proof {
            use_type_invariant(&*self);
        }
        if self.position < self.events.len() {
            let event = self.events[self.position].clone();
            self.position = self.position + 1;
            Some(event)
        } else {
            None
        }
    }
}

} // verus!
