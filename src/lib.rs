//! Canonical marshalling of typed values across a host/guest boundary: layouts, flattening into
//! register-class slots, linear-memory encoding and call-shape selection.
use vstd::prelude::*;

pub mod call;
pub mod error;
pub mod flat;
pub mod flatten;
pub mod layout;
pub mod marshal;
pub mod memory;
pub mod runtime;
pub mod value;

verus! {

} // verus!
