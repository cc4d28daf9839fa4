//! The gzip transform that may wrap a whole archive, done by `flate2`.
use vstd::prelude::*;

verus! {

/// The gzip stream that `flate2` makes of `data` at its default compression
/// level, or `None` where its encoder reports an error.
pub uninterp spec fn gzip_stream(data: Seq<u8>) -> Option<Seq<u8>>;

/// The bytes that `flate2` decodes from the gzip stream `data`: all that its
/// decoder delivers before the stream ends or the decoder reports an error.
pub uninterp spec fn gunzip_stream(data: Seq<u8>) -> Seq<u8>;

/// Compresses `data` into one gzip stream.
///
/// Writes `data` to a `flate2::write::GzEncoder` over an empty vector, made
/// by `GzEncoder::new` with `Compression::default()`, and takes the vector
/// back with `GzEncoder::finish`.  Nothing is proved of the stream: the
/// contract only gives what comes back its name, `gzip_stream`.
#[verifier::external_body]
pub(crate) fn gzip(data: &[u8]) -> (stream: Option<Vec<u8>>)
    ensures
        match stream {
            Some(bytes) => gzip_stream(data@) == Some(bytes@),
            None => gzip_stream(data@) is None,
        },
{
    let mut encoder = flate2::write::GzEncoder::new(Vec::new(), flate2::Compression::default());
    match std::io::Write::write_all(&mut encoder, data) {
        Ok(()) => encoder.finish().ok(),
        Err(_) => None,
    }
}

/// Decompresses the gzip stream `data` as far as it can be read.
///
/// Reads a `flate2::read::GzDecoder` over `data` to its end with
/// `Read::read_to_end`, which leaves in the vector what was read before an
/// error.  Nothing is proved of the bytes: the contract only gives what
/// comes back its name, `gunzip_stream`.
#[verifier::external_body]
pub(crate) fn gunzip(data: &[u8]) -> (bytes: Vec<u8>)
    ensures
        bytes@ == gunzip_stream(data@),
{
    let mut bytes: Vec<u8> = Vec::new();
    let _ = std::io::Read::read_to_end(&mut flate2::read::GzDecoder::new(data), &mut bytes);
    bytes
}

} // verus!
