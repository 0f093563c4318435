//! Flows on simplicial complexes.
//!
//! Placeholder for primitives that define flows on chains or cochains of a
//! simplicial complex, or that use persistent-homology features as
//! conditioning for flow matching.

use vstd::prelude::*;

verus! {

/// A placeholder for a cohomological flow field.
///
/// This is an extension point with no operations defined yet; implementers
/// should treat it as unspecified.
pub trait CohomologicalFlow {
}

} // verus!
