//! Schema-driven parsing of attribute argument lists.
//!
//! A record's declared fields are analyzed into a [`schema::Schema`], whose
//! fields are mandatory, optional or switches. One generic interpreter then
//! parses the argument list of the first attribute that carries the schema's
//! name into a [`args::Instance`].
pub mod tokens;
pub mod outside;
pub mod schema;
pub mod args;
pub mod lookup;
pub mod laws;
