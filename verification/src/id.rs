use vstd::prelude::*;

verus! {

/// Opaque node identifier using dense contiguous indexing.
///
/// The raw value is never zero: zero is reserved as the "no node" value.
#[derive(Debug, Clone, Copy, PartialEq, Eq, Hash, PartialOrd, Ord, Structural)]
pub struct NodeId(u32);

impl NodeId {
    #[verifier::type_invariant]
    spec fn nonzero(self) -> bool {
        self.0 != 0
    }

    /// The raw (1-based) value of the identifier.
    pub closed spec fn value(self) -> nat {
        self.0 as nat
    }

    /// Creates a new `NodeId` from a raw index.
    ///
    /// Returns `None` if the index is zero (reserved as the "no node" niche).
    pub fn new(index: u32) -> (r: Option<Self>)
        ensures
            index == 0 ==> r is None,
            index != 0 ==> r is Some && r->0.value() == index,
    {
        if index == 0 {
            None
        } else {
            Some(NodeId(index))
        }
    }

    /// Returns the internal index as `usize`.
    pub fn index(self) -> (r: usize)
        ensures
            r == self.value(),
            r > 0,
            r <= u32::MAX,
    {
        proof {
            use_type_invariant(&self);
        }
        self.0 as usize
    }

    /// Returns the raw nonzero value.
    pub fn raw(self) -> (r: u32)
        ensures
            r == self.value(),
            r != 0,
    {
        proof {
            use_type_invariant(&self);
        }
        self.0
    }
}

/// Opaque community identifier, never zero.
#[derive(Debug, Clone, Copy, PartialEq, Eq, Hash, PartialOrd, Ord, Structural)]
pub struct CommunityId(u32);

impl CommunityId {
    #[verifier::type_invariant]
    spec fn nonzero(self) -> bool {
        self.0 != 0
    }

    /// The raw (1-based) value of the identifier.
    pub closed spec fn value(self) -> nat {
        self.0 as nat
    }

    /// Creates a new `CommunityId` from a raw index.
    ///
    /// Returns `None` if the index is zero.
    pub fn new(index: u32) -> (r: Option<Self>)
        ensures
            index == 0 ==> r is None,
            index != 0 ==> r is Some && r->0.value() == index,
    {
        if index == 0 {
            None
        } else {
            Some(CommunityId(index))
        }
    }

    /// Returns the internal index as `usize`.
    pub fn index(self) -> (r: usize)
        ensures
            r == self.value(),
            r > 0,
            r <= u32::MAX,
    {
        proof {
            use_type_invariant(&self);
        }
        self.0 as usize
    }
}

} // verus!
