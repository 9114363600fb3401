//! Zero-copy JSON decoding with an ownership-erasure wrapper.
//!
//! [`parse::decode`] turns a byte buffer holding one JSON document into a
//! [`value::Value`] tree whose string leaves are spans into that buffer
//! wherever no unescaping was needed, falling back to owned bytes where it
//! was. [`ser::encode`] writes a tree back out as JSON. [`cart::ErasedDoc`]
//! binds a reference-counted buffer to the tree decoded from it, so the
//! aliasing tree can be stored and passed around as one self-contained
//! unit whose buffer provably outlives every span into it.

pub mod cart;
pub mod laws;
pub mod num;
pub mod parse;
pub mod ser;
pub mod utf8;
pub mod value;

pub use cart::ErasedDoc;
pub use parse::decode;
pub use parse::number_from_decimal;
pub use parse::DecodeError;
pub use parse::ErrorKind;
pub use ser::encode;
pub use ser::EncodeError;
pub use value::Number;
pub use value::Span;
pub use value::Text;
pub use value::Value;
