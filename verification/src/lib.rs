//! A fixed-capacity, open-addressing hash table with optional Robin Hood
//! displacement, in two physical layouts (array-of-structs and
//! struct-of-arrays), built to study probe-length distributions.

pub mod aos;
pub mod hashing;
pub mod keyset;
pub mod laws;
pub mod model;
pub mod soa;

pub use aos::AosTable;
pub use hashing::SimpleHash;
pub use keyset::KeySet;
pub use model::InsertError;
pub use soa::Table;
