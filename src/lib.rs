//! Shared-ownership handles with manual reference counting.
//!
//! Payloads live in arenas, and a handle locates its payload in one. Every
//! handle of a payload reports the same strong count, and the payload is
//! reclaimed exactly when its last handle is released. Two storage strategies
//! are given: [`my_rc`] keeps the payload and its count in one control block,
//! [`my_rc2`] keeps them in two independent cells. Both refine the ghost model
//! of [`model`], where the laws that hold of every strategy are proved.

pub mod model;
pub mod my_rc;
pub mod my_rc2;
