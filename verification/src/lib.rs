//! A minimal line-oriented key-value text format.
//!
//! The encoder renders an ordered sequence of `(key, value)` pairs, followed
//! by an ordered sequence of free-form extra lines, as flat text of the form
//! `key<separator>value<newline>`. The decoder splits a source text into
//! lines and classifies each line as a recognized pair (the line splits on
//! the first occurrence of the separator and the key is in a caller-supplied
//! allow-list) or as an extra line, preserving source order in both outputs.

pub mod model;

pub mod encode;

pub mod decode;

pub mod laws;

pub use encode::Serializer;
pub use encode::serialize;
pub use encode::serializer;
pub use encode::to_string;

pub use decode::DeserializeData;
pub use decode::Deserializer;
pub use decode::deserializer;
pub use decode::parse;
