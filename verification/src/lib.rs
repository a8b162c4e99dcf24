//! A personal command-snippet manager's core library.
//!
//! The heart of the crate is [`template`], a verified parser that turns a
//! single line of template text with bracketed placeholder fields into a
//! structured document: literal spans, editable input spans with default
//! values and descriptions, and a resolved tab-navigation order.

pub mod control;
pub mod db;
pub mod laws;
pub mod template;
pub mod utils;
