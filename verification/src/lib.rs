//! A list of Python objects that is kept sorted as objects are added one at a time.
//!
//! [`search`] holds the binary searches that place an element and find it again,
//! written once over the answers that a caller's comparison gives, and [`order`]
//! what they achieve when those answers come from an ordering. [`list`] runs the
//! searches on Python objects, whose comparisons are the calls into the interpreter
//! declared in [`object`], and [`render`] shows a list as text.

pub mod error;
pub mod list;
pub mod object;
pub mod order;
pub mod render;
pub mod search;
