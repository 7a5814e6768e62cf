//! Masks over a totally ordered domain.
//!
//! An [`OrdMask`] describes a subset of an ordered domain as an ascending list
//! of boundaries at which membership flips, together with the state that holds
//! below the first boundary. A membership test is a binary search, and the set
//! operations build their result from the boundaries of their operands without
//! ever enumerating elements of the domain.
//!
//! The contracts speak of a mask through its view, a [`MaskView`]: the
//! sequence of boundaries and the leading state. [`model`] defines what a view
//! includes, which views are valid and which are in canonical form, and what
//! the operations make of views. [`laws`] proves what holds of these
//! definitions in general: that the canonical form is unique, that
//! simplification keeps what a mask includes, that each set operation includes
//! what its name says, and De Morgan's laws among them.
//!
//! The masks are generic over the type of their boundaries. What is promised
//! holds for types that meet [`order::total_order`], as the primitive integer
//! types do; for other types the functions still run to their end.

pub mod collapsing;
pub mod counting;
pub mod decimal;
pub mod enumeration;
pub mod laws;
pub mod min_value;
pub mod model;
pub mod order;
pub mod ordmask;
pub mod toggling;

pub use crate::min_value::MinValue;
pub use crate::model::MaskView;
pub use crate::ordmask::{get_first_falling_index, Error, OrdMask};
