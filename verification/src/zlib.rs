//! Inflating the zlib-compressed body of a rule-set file.
use std::io::Read;
use vstd::prelude::*;

verus! {

#[verifier::external_type_specification]
#[verifier::external_body]
pub struct ExIoError(std::io::Error);

/// The bytes that the zlib stream `data` inflates to when read to its end
/// with `flate2::read::ZlibDecoder`, or `None` where that reader reports an
/// error (a corrupt or incomplete stream).
pub uninterp spec fn zlib_inflated(data: Seq<u8>) -> Option<Seq<u8>>;

/// Reads `flate2::read::ZlibDecoder::new(data)` to its end
/// (`std::io::Read::read_to_end`). Claimed of it: the outcome depends on
/// `data` alone; on success the bytes are those that `zlib_inflated` names,
/// and it fails exactly where `zlib_inflated` is `None`. Which `io::Error` it
/// returns is left unsaid.
#[verifier::external_body]
pub(crate) fn inflate(data: &[u8]) -> (r: Result<Vec<u8>, std::io::Error>)
    ensures
        r is Ok <==> zlib_inflated(data@) is Some,
        r matches Ok(v) ==> zlib_inflated(data@) == Some(v@),
{
    let mut decoder = flate2::read::ZlibDecoder::new(data);
    let mut decompressed = Vec::new();
    decoder.read_to_end(&mut decompressed)?;
    Ok(decompressed)
}

/// `format!("{e}")`: the text of an I/O error, as its `Display` shows it.
/// Nothing is claimed of the text, which comes from the operating system.
#[verifier::external_body]
pub(crate) fn io_error_text(e: &std::io::Error) -> String {
    format!("{e}")
}

} // verus!
