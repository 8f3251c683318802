use vstd::prelude::*;

verus! {

/// Subscription handle for an event observer registration.
///
/// A `Subscription` represents an active registration with an event source.
#[derive(Debug)]
pub struct Subscription {
    active: bool,
}

impl Subscription {
    /// Whether the subscription is active.
    pub closed spec fn spec_active(&self) -> bool {
        self.active
    }

    /// Creates a new, active subscription.
    pub fn new() -> (s: Self)
        ensures
            s.spec_active(),
    {
        Subscription { active: true }
    }

    /// Returns `true` if the subscription is still active.
    pub fn is_active(&self) -> (r: bool)
        ensures
            r == self.spec_active(),
    {
        self.active
    }
}

impl Default for Subscription {
    fn default() -> (s: Self)
        ensures
            s.spec_active(),
    {
        Self::new()
    }
}

} // verus!
