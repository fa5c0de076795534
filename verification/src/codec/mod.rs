//! Message codecs: compression of message bodies.

pub mod compression;
pub mod bytes_codec;
