//! A priority-bucketed errand list: the store, its mutations, and the
//! listing pipeline (select, order, filter, truncate).
pub mod cli;
pub mod errands;
pub mod listing;
pub mod laws;
