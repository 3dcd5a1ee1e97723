//! A backend-agnostic JSON value model for a jq-like filter engine.
//!
//! The crate models JSON-like values as a tagged tree ([`value::Value`]),
//! gives every value a mathematical model ([`model::JVal`]), and wraps values
//! in a query adapter ([`adapter::JsonLikeHelper`]) that provides the
//! indexing, slicing, path-update and merge operations a filter evaluation
//! engine needs, each with a proved contract.

pub mod error;
pub mod group;
pub mod model;
pub mod num;
pub mod path;
pub mod slice;
pub mod text;
pub mod value;
pub mod adapter;
pub mod laws;
