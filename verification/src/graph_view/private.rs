use vstd::prelude::*;

verus! {

/// Sealed trait preventing implementations of `MultilayerView` outside this crate.
pub trait Sealed {

}

} // verus!
