use vstd::prelude::*;

verus! {

/// Closes the frame-size family: only the sizes declared beside it exist.
pub trait Sealed {

}

} // verus!
