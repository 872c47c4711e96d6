//! Extensions of a Git index file: decoding and encoding of `FSMN` and `UNTR`, and in-memory editing of `TREE`.

pub mod bitmap;
pub mod decode;
pub mod entry;
pub mod extension;
pub mod hash;
pub mod util;
pub mod version;

pub use version::Version;
