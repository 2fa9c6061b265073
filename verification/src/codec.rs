//! Compression adapter: raw DEFLATE encode/decode of byte streams (no
//! zlib/gzip wrapper), plus the decode-side UTF-8 validation.  The DEFLATE
//! transforms themselves come from flate2 behind trusted declarations; the
//! adapter's own behaviour is verified against the names stated for them.

use std::io::Read;
use std::io::Write;

use vstd::prelude::*;

use crate::chars::bytes_to_string;
use crate::parse::sp_doc;
use crate::value::{SpecVal, Value};
use crate::CoreError;

use vstd::string::{StrSliceExecFns, StringSliceAdditionalSpecFns};
use vstd::utf8::{decode_utf8, valid_utf8};

verus! {

/// The raw DEFLATE stream that flate2's encoder produces for a payload at
/// the default compression level.
pub uninterp spec fn deflate_of(s: Seq<u8>) -> Seq<u8>;

/// What raw DEFLATE inflation makes of a byte stream: `None` when the
/// stream is structurally malformed.
pub uninterp spec fn inflate_of(s: Seq<u8>) -> Option<Seq<u8>>;

/// Relies on `flate2::write::DeflateEncoder` at the default compression
/// level: it emits the raw DEFLATE encoding of its input, which
/// `flate2::read::DeflateDecoder` inflates back to exactly that input.
/// Writing into a `Vec` sink cannot fail with an I/O error.
#[verifier::external_body]
fn deflate_bytes(data: &[u8]) -> (r: Vec<u8>)
    ensures
        r@ == deflate_of(data@),
        inflate_of(r@) == Some(data@),
{
    let mut encoder = flate2::write::DeflateEncoder::new(
        Vec::new(),
        flate2::Compression::default(),
    );
    encoder.write_all(data).unwrap();
    encoder.finish().unwrap()
}

/// Relies on `flate2::read::DeflateDecoder`: reading it to the end yields
/// the inflated payload, or an error when the compressed stream is
/// structurally malformed.
#[verifier::external_body]
fn inflate_bytes(data: &[u8]) -> (r: Option<Vec<u8>>)
    ensures
        match r {
            Some(v) => inflate_of(data@) == Some(v@),
            None => inflate_of(data@) is None,
        },
{
    let mut decoder = flate2::read::DeflateDecoder::new(data);
    let mut out = Vec::new();
    match decoder.read_to_end(&mut out) {
        Ok(_) => Some(out),
        Err(_) => None,
    }
}

/// Inflate a raw DEFLATE stream and validate the payload as UTF-8 text.
/// Fails with `CorruptStream` exactly when inflation fails structurally and
/// with `InvalidEncoding` exactly when the payload is not valid UTF-8.
pub fn decompress(data: &[u8]) -> (r: Result<String, CoreError>)
    ensures
        r is Ok ==> (inflate_of(data@) matches Some(p) && valid_utf8(p) && (r->Ok_0)@
            == decode_utf8(p)),
        (r matches Err(e) && e is CorruptStream) <==> inflate_of(data@) is None,
        (r matches Err(e) && e is InvalidEncoding) <==> (inflate_of(data@) matches Some(p)
            && !valid_utf8(p)),
        r is Err ==> ((r->Err_0) is CorruptStream || (r->Err_0) is InvalidEncoding),
{
    match inflate_bytes(data) {
        None => Err(CoreError::CorruptStream),
        Some(payload) => match bytes_to_string(payload) {
            None => Err(CoreError::InvalidEncoding),
            Some(text) => Ok(text),
        },
    }
}

/// Deflate a text at the default compression level.  This direction cannot
/// fail: the result is the raw DEFLATE stream of the text's UTF-8 bytes,
/// and inflating it gives those bytes back.
pub fn compress(text: &str) -> (r: Vec<u8>)
    ensures
        r@ == deflate_of(text.spec_bytes()),
        inflate_of(r@) == Some(text.spec_bytes()),
{
    let bytes = text.as_bytes_vec();
    deflate_bytes(bytes.as_slice())
}

/// What reading a compressed document comes to, step by step: inflation,
/// UTF-8 decoding, then the table-literal parse.
pub enum DocOutcome {
    Parsed(SpecVal),
    CorruptStream,
    InvalidEncoding,
    ParseError,
}

pub open spec fn doc_outcome(bytes: Seq<u8>) -> DocOutcome {
    match inflate_of(bytes) {
        None => DocOutcome::CorruptStream,
        Some(p) => if !valid_utf8(p) {
            DocOutcome::InvalidEncoding
        } else {
            match sp_doc(decode_utf8(p)) {
                None => DocOutcome::ParseError,
                Some(v) => DocOutcome::Parsed(v),
            }
        },
    }
}

/// Load a compressed save file into its parsed table-literal value.
pub fn data_as_table(data: &[u8]) -> (r: Result<Value, CoreError>)
    ensures
        match r {
            Ok(v) => doc_outcome(data@) == DocOutcome::Parsed(v@),
            Err(e) => match e {
                CoreError::CorruptStream => doc_outcome(data@) is CorruptStream,
                CoreError::InvalidEncoding => doc_outcome(data@) is InvalidEncoding,
                CoreError::ParseError => doc_outcome(data@) is ParseError,
                CoreError::MissingSubtable(_) => false,
            },
        },
{
    let text = match decompress(data) {
        Ok(t) => t,
        Err(e) => {
            return Err(e);
        },
    };
    match crate::parse::parse(text.as_str()) {
        Ok(v) => Ok(v),
        Err(e) => Err(e),
    }
}

} // verus!
