//! Binary property lists (the `bplist00` format): a verified reader and writer.
//!
//! The writer appends each object to its output, records where each object
//! begins, and ends the output with an offset table and a 32-byte trailer. The
//! reader finds the top object through the trailer and the offset table and
//! decodes objects one marker at a time. The laws in `laws` state what the reader
//! gives back of each object the writer wrote; those in `tree` state it of whole
//! values, containers included.
pub mod bytes;
pub mod de;
pub mod error;
pub mod laws;
pub mod ser;
pub mod text;
pub mod trailer;
pub mod tree;

pub use de::{AnyValue, Deserializer, DictParser, Integer, RealBits, SeqParser, UnsignedValue};
pub use error::{Infallible, InvalidPropertyList};
pub use ser::{MapSerializer, SeqSerializer, Serializer, Unimplemented};
pub use text::Text;
pub use trailer::Trailer;
