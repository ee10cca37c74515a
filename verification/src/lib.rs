//! A catalog of Bayesian models for planning questions, up to the arithmetic.
//!
//! A request ([`config`]) and a relation ([`data`]) become a model: which rows are read,
//! which parameters there are and what they are called ([`draws`]), how each follows from
//! the coordinates that an engine moves in ([`formula`]), and whether the answer may be
//! acted on ([`readiness`]). What was read decides the model and identifies it
//! ([`reading`]). The families stand under [`catalog`]; [`bridge`] judges what a statistics
//! package replies, and [`scatter`] lays draws out.
//!
//! Numbers are carried by their bits ([`double`]): they are compared and classified here,
//! and computed with elsewhere.
pub mod bridge;
pub mod catalog;
pub mod config;
pub mod data;
pub mod double;
pub mod draws;
pub mod errors;
pub mod formula;
pub mod panel;
pub mod readiness;
pub mod reading;
pub mod scatter;
pub mod text;
pub mod types;
