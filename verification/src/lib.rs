//! A retained-mode declarative UI core: application code describes a frame as
//! a tree of view descriptors, and this library reconciles that tree against a
//! persistent tree of elements, each element owning one platform widget and
//! one layout node.  The platform widget store is an in-crate recording
//! backend; the layout node forest is kept by the `taffy` crate behind a small
//! trusted boundary.

pub mod color;
pub mod driver;
pub mod element;
pub mod layout;
pub mod message;
pub mod reconcile;
pub mod store;
pub mod style;
pub mod views;

use vstd::prelude::*;

verus! {

} // verus!
