//! An editor and explorer for formal contexts.
//!
//! A formal context is a table of objects and attributes with a cross
//! wherever an object has an attribute. This crate keeps such a table in
//! step with the context that the `odis` engine computes on
//! ([`model::TableModel`]), and leads through an attribute exploration, in
//! which implications between attributes are proposed one by one and the
//! user confirms each or refutes it with a new object
//! ([`exploration::Exploration`]).
//!
//! A context is written to a text ([`export`]) and read back from one
//! ([`import`]); [`interchange`] proves that what is read back is what was
//! written.
//!
//! The crate is verified with Verus. What it takes on trust from `odis` and
//! `bit_set` is gathered in [`engine`], at the top of [`attribute_set`] and
//! in one function of [`import`]; every function marked `external_body`
//! says in its comment what is claimed of the code it calls.

pub mod attribute_set;
pub mod closure;
pub mod context;
pub mod engine;
pub mod exploration;
pub mod export;
pub mod import;
pub mod interchange;
pub mod lectic;
pub mod listing;
pub mod model;
pub mod spelling;
pub mod table;
