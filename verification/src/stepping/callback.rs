use vstd::prelude::*;

use crate::step::StepEvent;

verus! {

/// Observer callback interface for event handling.
///
/// Implementors can be registered with an event source to receive
/// [`StepEvent`] notifications as the algorithm progresses.
pub trait StepCallback<Q>: Send {
    /// Called when a step event is emitted.
    fn on_event(&mut self, event: &StepEvent<Q>);
}

} // verus!
