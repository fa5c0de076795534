//! Codecs that pass messages through as bytes: serialization is done by the
//! library before a message reaches the transport and after it leaves it.

use crate::status::StatusError;
use vstd::prelude::*;

verus! {

/// Writes each message's bytes to the outgoing buffer, or fails with the
/// message's error.
pub struct BytesEncoder {}

impl BytesEncoder {
    pub fn new() -> (r: Self) {
        BytesEncoder {  }
    }

    /// Appends `item`'s bytes to `dst`; an error item is returned as it is,
    /// `dst` unchanged.
    pub fn encode(&mut self, item: Result<Vec<u8>, StatusError>, dst: &mut Vec<u8>) -> (r: Result<
        (),
        StatusError,
    >)
        ensures
            match item {
                Ok(b) => r is Ok && final(dst)@ == old(dst)@ + b@,
                Err(e) => r == Err::<(), StatusError>(e) && final(dst)@ == old(dst)@,
            },
    {
        match item {
            Ok(b) => {
                let mut b = b;
                dst.append(&mut b);
                Ok(())
            },
            Err(e) => Err(e),
        }
    }
}

/// Takes everything the incoming buffer holds as one message.
#[derive(Debug)]
pub struct BytesDecoder {}

impl BytesDecoder {
    pub fn new() -> (r: Self) {
        BytesDecoder {  }
    }

    /// Takes all the bytes of `src` as one message, leaving it empty.
    pub fn decode(&mut self, src: &mut Vec<u8>) -> (r: Result<Option<Vec<u8>>, StatusError>)
        ensures
            r matches Ok(Some(m)) && m@ == old(src)@,
            final(src)@ == Seq::<u8>::empty(),
    {
        let mut out: Vec<u8> = Vec::new();
        std::mem::swap(&mut out, src);
        Ok(Some(out))
    }
}

} // verus!
