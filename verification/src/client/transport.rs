//! The codecs of the transport: messages travel as bytes already
//! serialized by the library.

use crate::status::StatusError;
use vstd::prelude::*;

pub use crate::codec::bytes_codec::BytesDecoder;

verus! {

/// Writes each message's bytes to the outgoing buffer.
pub struct BytesEncoder {}

impl BytesEncoder {
    pub fn new() -> (r: Self) {
        BytesEncoder {  }
    }

    /// Appends `item` to `dst`.
    pub fn encode(&mut self, item: &[u8], dst: &mut Vec<u8>) -> (r: Result<(), StatusError>)
        ensures
            r is Ok,
            final(dst)@ == old(dst)@ + item@,
    {
        dst.extend_from_slice(item);
        proof {
            assert(final(dst)@ =~= old(dst)@ + item@);
        }
        Ok(())
    }
}

/// Writes each message, a buffer of bytes, to the outgoing buffer.
pub struct BufEncoder {}

impl BufEncoder {
    pub fn new() -> (r: Self) {
        BufEncoder {  }
    }

    /// Moves the bytes of `item` to the end of `dst`, leaving `item` empty.
    pub fn encode(&mut self, item: &mut Vec<u8>, dst: &mut Vec<u8>) -> (r: Result<(), StatusError>)
        ensures
            r is Ok,
            final(dst)@ == old(dst)@ + old(item)@,
            final(item)@ == Seq::<u8>::empty(),
    {
        dst.append(item);
        Ok(())
    }
}

} // verus!
