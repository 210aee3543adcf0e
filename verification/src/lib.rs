//! Prolog-style pattern matching and relational search over structured data.
//!
//! Patterns are terms whose `&`-prefixed strings are logic variables; `unify`
//! matches one term against one value, and the search engine finds every
//! combination of rows across several sources that a set of patterns accepts.

pub mod commands;
pub mod convert;
pub mod native;
pub mod search;
pub mod store;
pub mod substitution;
pub mod term;
pub mod text;
pub mod unify;
pub mod value;
