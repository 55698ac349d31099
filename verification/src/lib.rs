//! A minimal binary encoding layer: ordered sequences, mappings and sets of
//! byte strings are converted into a compact, self-describing byte stream and
//! back, using variable-length integer framing.

pub mod bytes;
pub mod collections;
pub mod de;
pub mod error;
pub mod framing;
pub mod index;
pub mod ser;
pub mod tools;
pub mod varint;

pub use de::Deserializer;
pub use error::Error;
pub use ser::Serializer;
