//! A cache that holds a single contiguous chunk of a remote text document, keeps track of the
//! lines in it, and follows edits of the document. It offers line-oriented access to the
//! document, and fetches from a [`source::DataSource`] what it does not hold.

pub mod cache;
pub mod calls;
pub mod chunk;
pub mod delta;
pub mod document;
mod encoding;
pub mod laws;
pub mod lookup;
pub mod lookup_laws;
pub mod merging;
pub mod offsets;
pub mod source;
pub mod text;
pub mod update_laws;

pub use cache::ChunkCache;
pub use delta::{Delta, DeltaElement};
pub use source::{DataSource, Error, GetDataResponse, TextUnit};
