//! Verified value operations behind a jq-style query engine: indexing,
//! slicing, updating and combining JSON-like values.

pub mod bounds;
pub mod error;
pub mod helper;
pub mod laws;
pub mod value;

pub use bounds::{abs_bound, abs_index, skip_take, wrap};
pub use error::{JqError, PathError, PathOpt};
pub use helper::JsonLikeHelper;
pub use value::{JsonNumber, JsonObject, JsonValue};
