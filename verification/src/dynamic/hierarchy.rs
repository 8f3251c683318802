use vstd::prelude::*;

use crate::error::PartitionError;
use crate::partition::Partition;

verus! {

/// A hierarchical community structure: partitions at several resolution
/// levels, from fine-grained (level 0) to coarse-grained.
#[derive(Debug)]
pub struct HierarchicalTree<Q> {
    levels: Vec<Partition<Q>>,
}

impl<Q> HierarchicalTree<Q> {
    /// The partitions, finest first.
    pub closed spec fn spec_levels(&self) -> Seq<Partition<Q>> {
        self.levels@
    }

    /// Creates a new hierarchical tree from partitions ordered from finest to
    /// coarsest resolution.
    pub fn new(levels: Vec<Partition<Q>>) -> (t: Self)
        ensures
            t.spec_levels() == levels@,
    {
        HierarchicalTree { levels }
    }

    /// Returns the partition at the given (zero-based) hierarchy level.
    ///
    /// Returns [`PartitionError::InvalidLevel`] if `level` is out of bounds.
    pub fn at_level(&self, level: usize) -> (r: Result<&Partition<Q>, PartitionError>)
        ensures
            level < self.spec_levels().len() ==> r == Ok::<&Partition<Q>, PartitionError>(
                &self.spec_levels()[level as int],
            ),
            level >= self.spec_levels().len() ==> r == Err::<&Partition<Q>, PartitionError>(
                PartitionError::InvalidLevel { level },
            ),
    {
        if level < self.levels.len() {
            Ok(&self.levels[level])
        } else {
            Err(PartitionError::InvalidLevel { level })
        }
    }

    /// Returns all hierarchy levels as a slice.
    pub fn levels(&self) -> (r: &[Partition<Q>])
        ensures
            r@ == self.spec_levels(),
    {
        self.levels.as_slice()
    }

    /// Returns the number of hierarchy levels.
    pub fn level_count(&self) -> (r: usize)
        ensures
            r == self.spec_levels().len(),
    {
        self.levels.len()
    }
}

} // verus!
