//! Bounded, allocation-free text formatting into a caller-supplied byte buffer.
//!
//! [`WriteTo`] accumulates text fragments into a fixed-size buffer and keeps
//! count of every byte it was asked to write, including those that did not
//! fit, so that overflow is detected exactly and stays detected. [`show`]
//! drives `core::fmt` through such a writer and hands back the rendered text,
//! borrowed from the buffer.

pub mod writer;

pub use writer::{show, WriteTo};
