//! A decoder for a compact, human-readable notation of tuples, records,
//! enum variants, sequences, maps, options and primitive literals.
pub mod de;
pub mod error;
pub mod scan;
pub mod value;

pub use de::{from_str, CommaSeparated, Decode, Deserializer};
pub use error::{Error, Result};
pub use value::{Number, Value};
