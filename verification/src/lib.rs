//! An embeddable in-memory relational algebra engine: a typed tabular value
//! (a relation) stored in one flat buffer under a row-major or column-major
//! layout, plus a capability contract from which the whole algebra —
//! projection, renaming, filtering, set operations, joins, concatenation and
//! cross product — is derived generically for every conforming relation
//! kind, eager or computed.

pub mod scalars;
pub mod schema;
pub mod types;
pub mod relation;
pub mod range;
pub mod operations;
