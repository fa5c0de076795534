//! Compression of message bodies: gzip, deflate (zlib) and zstd.
//!
//! Each compressor appends to `destination` the compressed (or
//! decompressed) form of `source`. The bytes themselves come from the
//! `flate2` and `zstd` crates; what is stated of them is that they are a
//! function of the input and level, that decompression gives back what
//! compression was given, and, for gzip and deflate, that compression
//! always succeeds and decompression succeeds exactly on well-formed input.

use vstd::prelude::*;

verus! {

#[verifier::external_type_specification]
#[verifier::external_body]
pub struct ExIoError(std::io::Error);

/// The name of a compression algorithm, as used in the `grpc-encoding`
/// header.
pub trait Encoding {
    /// The name of the algorithm, such as "gzip".
    const NAME: &'static str;
}

/// What gzip makes of `data` at `level` (`flate2`).
pub uninterp spec fn gzip_compressed(level: u32, data: Seq<u8>) -> Seq<u8>;

/// What gzip decompression makes of `data` (`flate2`): the decoded bytes,
/// or `None` when `data` is not a well-formed gzip member.
pub uninterp spec fn gzip_decompressed(data: Seq<u8>) -> Option<Seq<u8>>;

/// What zlib deflate makes of `data` at `level` (`flate2`).
pub uninterp spec fn deflate_compressed(level: u32, data: Seq<u8>) -> Seq<u8>;

/// What zlib inflate makes of `data` (`flate2`): the decoded bytes, or
/// `None` when `data` is not a well-formed zlib stream.
pub uninterp spec fn deflate_decompressed(data: Seq<u8>) -> Option<Seq<u8>>;

/// What zstd makes of `data` at `level` (`zstd`).
pub uninterp spec fn zstd_compressed(level: i32, data: Seq<u8>) -> Seq<u8>;

/// What zstd decompression makes of `data` (`zstd`): the decoded bytes,
/// or `None` when `data` is not something the decoder accepts.
pub uninterp spec fn zstd_decompressed(data: Seq<u8>) -> Option<Seq<u8>>;

/// Reads `flate2::bufread::GzEncoder` over `data` at `level` to the end
/// into a new vector (levels above 10 trip an assertion of the backend,
/// hence `level <= 9`, the documented scale). Claimed: reading an encoder
/// over a byte slice into a vector does not fail, the output is a function
/// of level and data, and gzip decompression gives `data` back.
#[verifier::external_body]
fn gzip_encode(level: u32, data: &[u8]) -> (r: Result<Vec<u8>, std::io::Error>)
    requires
        level <= 9,
    ensures
        r is Ok,
        r matches Ok(c) ==> c@ == gzip_compressed(level, data@) && gzip_decompressed(c@) == Some(data@),
{
    let mut encoder = flate2::bufread::GzEncoder::new(data, flate2::Compression::new(level));
    let mut out = Vec::new();
    std::io::copy(&mut encoder, &mut out)?;
    Ok(out)
}

/// Reads `flate2::bufread::GzDecoder` over `data` to the end into a new
/// vector, and returns the vector with the status of the copy. Claimed: the
/// copy succeeds exactly when `data` decodes, and then the vector holds the
/// decoded bytes. How many bytes were decoded before a failure is left
/// unsaid.
#[verifier::external_body]
fn gzip_decode(data: &[u8]) -> (r: (Vec<u8>, Result<u64, std::io::Error>))
    ensures
        r.1 is Ok <==> gzip_decompressed(data@) is Some,
        r.1 is Ok ==> gzip_decompressed(data@) == Some(r.0@),
{
    let mut decoder = flate2::bufread::GzDecoder::new(data);
    let mut out = Vec::new();
    let status = std::io::copy(&mut decoder, &mut out);
    (out, status)
}

/// Reads `flate2::bufread::ZlibEncoder` over `data` at `level` to the end
/// into a new vector (`level <= 9`, the documented scale). Claimed: this
/// does not fail, the output is a function of level and data, and zlib
/// decompression gives `data` back.
#[verifier::external_body]
fn deflate_encode(level: u32, data: &[u8]) -> (r: Result<Vec<u8>, std::io::Error>)
    requires
        level <= 9,
    ensures
        r is Ok,
        r matches Ok(c) ==> c@ == deflate_compressed(level, data@) && deflate_decompressed(c@) == Some(data@),
{
    let mut encoder = flate2::bufread::ZlibEncoder::new(data, flate2::Compression::new(level));
    let mut out = Vec::new();
    std::io::copy(&mut encoder, &mut out)?;
    Ok(out)
}

/// Reads `flate2::bufread::ZlibDecoder` over `data` to the end into a new
/// vector, and returns the vector with the status of the copy. Claimed: the
/// copy succeeds exactly when `data` decodes, and then the vector holds the
/// decoded bytes. How many bytes were decoded before a failure is left
/// unsaid.
#[verifier::external_body]
fn deflate_decode(data: &[u8]) -> (r: (Vec<u8>, Result<u64, std::io::Error>))
    ensures
        r.1 is Ok <==> deflate_decompressed(data@) is Some,
        r.1 is Ok ==> deflate_decompressed(data@) == Some(r.0@),
{
    let mut decoder = flate2::bufread::ZlibDecoder::new(data);
    let mut out = Vec::new();
    let status = std::io::copy(&mut decoder, &mut out);
    (out, status)
}

/// Reads `zstd::stream::read::Encoder` over `data` at `level` to the end
/// into a new vector, and returns the vector with the status. Claimed: on
/// success the vector holds a function of level and data, and zstd
/// decompression gives `data` back. Whether it succeeds is left unsaid:
/// the C library reports a failed allocation of its work space as an
/// error, which depends on the machine.
#[verifier::external_body]
fn zstd_encode(level: i32, data: &[u8]) -> (r: (Vec<u8>, Result<u64, std::io::Error>))
    ensures
        r.1 is Ok ==> r.0@ == zstd_compressed(level, data@) && zstd_decompressed(r.0@) == Some(data@),
{
    let mut out = Vec::new();
    let status = match zstd::stream::read::Encoder::new(data, level) {
        Ok(mut encoder) => std::io::copy(&mut encoder, &mut out),
        Err(e) => Err(e),
    };
    (out, status)
}

/// Reads `zstd::stream::read::Decoder` over `data` to the end into a new
/// vector, and returns the vector with the status. Claimed: data the
/// decoder does not accept gives an error, and on success the vector holds
/// a function of the data. That well-formed data succeeds is left unsaid: a
/// failed allocation inside the C library is reported as an error too.
#[verifier::external_body]
fn zstd_decode(data: &[u8]) -> (r: (Vec<u8>, Result<u64, std::io::Error>))
    ensures
        r.1 is Ok ==> zstd_decompressed(data@) == Some(r.0@),
        zstd_decompressed(data@) is None ==> r.1 is Err,
{
    let mut out = Vec::new();
    let status = match zstd::stream::read::Decoder::new(data) {
        Ok(mut decoder) => std::io::copy(&mut decoder, &mut out),
        Err(e) => Err(e),
    };
    (out, status)
}

/// `zstd::DEFAULT_COMPRESSION_LEVEL`, which the crate sets to 3.
#[verifier::external_body]
fn zstd_default_level() -> (r: i32)
    ensures
        r == 3,
{
    zstd::DEFAULT_COMPRESSION_LEVEL
}

/// Appends what a codec wrote to `destination`, all of it whether or not
/// the codec then failed, and passes the codec's status on.
pub fn append_output(output: Vec<u8>, status: Result<u64, std::io::Error>, destination: &mut Vec<u8>) -> (r: Result<(), std::io::Error>)
    ensures
        r is Ok == status is Ok,
        final(destination)@ == old(destination)@ + output@,
{
    let mut output = output;
    destination.append(&mut output);
    match status {
        Ok(_) => Ok(()),
        Err(e) => Err(e),
    }
}

/// The gzip compressor.
#[derive(Debug, Clone, Copy)]
pub struct Gzip {
    level: u32,
}

impl Gzip {
    /// The level is on flate2's scale, 0 to 9.
    #[verifier::type_invariant]
    closed spec fn inv(self) -> bool {
        self.level <= 9
    }

    pub closed spec fn spec_level(&self) -> u32 {
        self.level
    }

    /// A gzip compressor at level 6.
    pub fn new() -> (r: Self)
        ensures
            r.spec_level() == 6,
    {
        Gzip { level: 6 }
    }

    /// Compresses `source`, appending the result to `destination`; this
    /// does not fail.
    pub fn compress(&self, source: &[u8], destination: &mut Vec<u8>) -> (r: Result<(), std::io::Error>)
        ensures
            r is Ok,
            final(destination)@ == old(destination)@ + gzip_compressed(self.spec_level(), source@),
            gzip_decompressed(gzip_compressed(self.spec_level(), source@)) == Some(source@),
    {
        proof {
            use_type_invariant(self);
        }
        match gzip_encode(self.level, source) {
            Ok(compressed) => append_output(compressed, Ok(0), destination),
            Err(e) => Err(e),
        }
    }

    /// Decompresses `source`, appending the result to `destination`. It
    /// fails exactly when `source` is not gzip; what was decoded before the
    /// failure is appended all the same.
    pub fn decompress(&self, source: &[u8], destination: &mut Vec<u8>) -> (r: Result<(), std::io::Error>)
        ensures
            r is Ok <==> gzip_decompressed(source@) is Some,
            match gzip_decompressed(source@) {
                Some(d) => final(destination)@ == old(destination)@ + d,
                None => old(destination)@.is_prefix_of(final(destination)@),
            },
    {
        let (output, status) = gzip_decode(source);
        append_output(output, status, destination)
    }
}

impl Default for Gzip {
    fn default() -> (r: Self)
        ensures
            r.spec_level() == 6,
    {
        Gzip::new()
    }
}

impl Encoding for Gzip {
    const NAME: &'static str = "gzip";
}

/// The deflate (zlib) compressor.
#[derive(Debug, Clone, Copy)]
pub struct Deflate {
    level: u32,
}

impl Deflate {
    /// The level is on flate2's scale, 0 to 9.
    #[verifier::type_invariant]
    closed spec fn inv(self) -> bool {
        self.level <= 9
    }

    pub closed spec fn spec_level(&self) -> u32 {
        self.level
    }

    /// A deflate compressor at level 6.
    pub fn new() -> (r: Self)
        ensures
            r.spec_level() == 6,
    {
        Deflate { level: 6 }
    }

    /// Compresses `source`, appending the result to `destination`; this
    /// does not fail.
    pub fn compress(&self, source: &[u8], destination: &mut Vec<u8>) -> (r: Result<(), std::io::Error>)
        ensures
            r is Ok,
            final(destination)@ == old(destination)@ + deflate_compressed(self.spec_level(), source@),
            deflate_decompressed(deflate_compressed(self.spec_level(), source@)) == Some(source@),
    {
        proof {
            use_type_invariant(self);
        }
        match deflate_encode(self.level, source) {
            Ok(compressed) => append_output(compressed, Ok(0), destination),
            Err(e) => Err(e),
        }
    }

    /// Decompresses `source`, appending the result to `destination`. It
    /// fails exactly when `source` is not a zlib stream; what was decoded
    /// before the failure is appended all the same.
    pub fn decompress(&self, source: &[u8], destination: &mut Vec<u8>) -> (r: Result<(), std::io::Error>)
        ensures
            r is Ok <==> deflate_decompressed(source@) is Some,
            match deflate_decompressed(source@) {
                Some(d) => final(destination)@ == old(destination)@ + d,
                None => old(destination)@.is_prefix_of(final(destination)@),
            },
    {
        let (output, status) = deflate_decode(source);
        append_output(output, status, destination)
    }
}

impl Default for Deflate {
    fn default() -> (r: Self)
        ensures
            r.spec_level() == 6,
    {
        Deflate::new()
    }
}

impl Encoding for Deflate {
    const NAME: &'static str = "deflate";
}

/// The zstd compressor.
#[derive(Debug, Clone, Copy)]
pub struct Zstd {
    level: i32,
}

impl Zstd {
    pub closed spec fn spec_level(&self) -> i32 {
        self.level
    }

    /// A zstd compressor at the library's default level, 3.
    pub fn new() -> (r: Self)
        ensures
            r.spec_level() == 3,
    {
        Self::with_level(zstd_default_level())
    }

    /// A zstd compressor at `level`.
    pub fn with_level(level: i32) -> (r: Self)
        ensures
            r.spec_level() == level,
    {
        Zstd { level }
    }

    /// Compresses `source`, appending the result to `destination`. On
    /// failure what was written before it is appended all the same.
    pub fn compress(&self, source: &[u8], destination: &mut Vec<u8>) -> (r: Result<(), std::io::Error>)
        ensures
            r is Ok ==> final(destination)@ == old(destination)@ + zstd_compressed(self.spec_level(), source@),
            old(destination)@.is_prefix_of(final(destination)@),
            r is Ok ==> zstd_decompressed(zstd_compressed(self.spec_level(), source@)) == Some(source@),
    {
        let (output, status) = zstd_encode(self.level, source);
        append_output(output, status, destination)
    }

    /// Decompresses `source`, appending the result to `destination`. Input
    /// that is not zstd fails; on failure what was decoded before it is
    /// appended all the same.
    pub fn decompress(&self, source: &[u8], destination: &mut Vec<u8>) -> (r: Result<(), std::io::Error>)
        ensures
            zstd_decompressed(source@) is None ==> r is Err,
            r is Ok ==> zstd_decompressed(source@) is Some && final(destination)@ == old(destination)@
                + zstd_decompressed(source@)->0,
            old(destination)@.is_prefix_of(final(destination)@),
    {
        let (output, status) = zstd_decode(source);
        append_output(output, status, destination)
    }
}

impl Default for Zstd {
    fn default() -> (r: Self)
        ensures
            r.spec_level() == 3,
    {
        Zstd::new()
    }
}

impl Encoding for Zstd {
    const NAME: &'static str = "zstd";
}

} // verus!
