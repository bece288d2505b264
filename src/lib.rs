//! Subset sums within a range, found by order-statistic selection instead of sorting.
//!
//! [`select`] finds how many of the lightest items fit within a threshold, reordering
//! the items in place; [`subset`] builds on it to find positions whose weights add up
//! to a total within `[l, u]`; [`laws`] states what holds across calls of the
//! selector; [`fixture`] reads the text records that questions and verdicts come in.

pub mod fixture;
pub mod laws;
pub mod select;
pub mod subset;
