//! A verified report builder for the standard-error stream of a
//! continuous build-watch tool.
//!
//! The stream is an interleaving of compiler diagnostics.  The library
//! resolves the terminal styling of each line, classifies it, groups
//! the lines into diagnostic items (one warning or error each),
//! discards summary sections, orders all error items before all
//! warning items, and assigns one-based item indices.
//! A finished [`report::Report`] can be reordered in place so that the
//! items come in reverse index order.

pub mod classify;
pub mod decode;
pub mod laws;
pub mod line;
pub mod order;
pub mod report;
