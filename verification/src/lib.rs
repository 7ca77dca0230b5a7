//! An in-memory relational query engine over small tables.
//!
//! A [`table::Table`] is a schema plus an ordered sequence of rows. The
//! operator modules build new tables out of existing ones (projection,
//! filtration, sorting, distinct, grouping with aggregates, joins and set
//! operations), and the `compare` module decides whether two results agree.
//! Every operator states, over the mathematical view of its inputs, exactly
//! which table it returns.

pub mod compare;
pub mod distinct;
pub mod error;
pub mod expr;
pub mod filter;
pub mod group;
pub mod join;
pub mod number;
pub mod order;
pub mod pipeline;
pub mod predicate;
pub mod schema;
pub mod select;
pub mod setops;
pub mod sort;
pub mod table;
pub mod text;
pub mod value;
