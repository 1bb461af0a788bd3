//! Parse `key = value` configuration text with dotted keys into a tree of
//! nested namespaces, and render that tree as pretty-printed JSON.
//!
//! The crate is organised in three layers, in dependency order:
//! - [`parser`] classifies a single line as comment, blank, or assignment and
//!   extracts the dotted key and the raw string value;
//! - [`tree`] holds the [`tree::ConfigValue`] tree and inserts one
//!   `(dotted key, value)` pair at a time, detecting conflicts between a key
//!   used as a scalar and the same key used as a namespace;
//! - [`json`] renders a finished tree as pretty-printed JSON text.

pub mod json;
pub mod parser;
pub mod strutil;
pub mod tree;

pub use json::format_as_json;
pub use parser::parse_line;
pub use tree::ConfigValue;
pub use tree::ConflictError;
pub use tree::insert_config_value;
pub use tree::parse_config_file;
pub use tree::split_key;
