//! The compressed layer of a schematic file, and what can be wrong with one.

use flate2::read::GzDecoder;
use flate2::write::GzEncoder;
use flate2::Compression;
use std::io::{Read, Write};
use crate::text;
use vstd::prelude::*;

verus! {

/// Why a schematic cannot be read or written.
#[derive(Debug)]
pub enum FormatError {
    Io(String),
    Nbt(String),
    UnsupportedVersion(i32),
    MissingField(String),
}

/// What a [`FormatError`] says.
pub open spec fn error_text(error: FormatError) -> Seq<char> {
    match error {
        FormatError::Io(reason) => "io error: "@ + reason@,
        FormatError::Nbt(reason) => "nbt error: "@ + reason@,
        FormatError::UnsupportedVersion(version) => "unsupported schematic version: "@
            + text::signed_decimal(version as int),
        FormatError::MissingField(field) => "missing required field: "@ + field@,
    }
}

impl FormatError {
    pub fn message(&self) -> (message: String)
        ensures
            message@ == error_text(*self),
    {
        match self {
            FormatError::Io(reason) => "io error: ".to_owned().concat(reason.as_str()),
            FormatError::Nbt(reason) => "nbt error: ".to_owned().concat(reason.as_str()),
            FormatError::UnsupportedVersion(version) => {
                let mut message: String = "unsupported schematic version: ".to_owned();
                text::push_signed(&mut message, *version as i64);
                message
            },
            FormatError::MissingField(field) => "missing required field: ".to_owned().concat(
                field.as_str(),
            ),
        }
    }
}

/// What reading a gzip stream gives: the bytes it holds, or why it cannot be
/// read.
pub uninterp spec fn gunzipped(bytes: Seq<u8>) -> Result<Seq<u8>, Seq<char>>;

/// What writing a gzip stream gives.
pub uninterp spec fn gzipped(bytes: Seq<u8>) -> Result<Seq<u8>, Seq<char>>;

/// `flate2::read::GzDecoder`, read to its end. The result is a function of the
/// bytes alone: the first member of the stream, or the text of the error that
/// the decoder met.
#[verifier::external_body]
fn gunzip(bytes: &[u8]) -> (payload: Result<Vec<u8>, String>)
    ensures
        match payload {
            Ok(found) => gunzipped(bytes@) == Ok::<Seq<u8>, Seq<char>>(found@),
            Err(reason) => gunzipped(bytes@) == Err::<Seq<u8>, Seq<char>>(reason@),
        },
{
    let mut payload = Vec::new();
    match GzDecoder::new(bytes).read_to_end(&mut payload) {
        Ok(_) => Ok(payload),
        Err(error) => Err(error.to_string()),
    }
}

/// `flate2::write::GzEncoder` over a vector, at the default level. The result
/// is a function of the bytes alone (the header carries no time), and the
/// decoder gives back what the encoder was given.
#[verifier::external_body]
fn gzip(bytes: &[u8]) -> (stream: Result<Vec<u8>, String>)
    ensures
        match stream {
            Ok(found) => gzipped(bytes@) == Ok::<Seq<u8>, Seq<char>>(found@) && gunzipped(found@)
                == Ok::<Seq<u8>, Seq<char>>(bytes@),
            Err(reason) => gzipped(bytes@) == Err::<Seq<u8>, Seq<char>>(reason@),
        },
{
    let mut encoder = GzEncoder::new(Vec::new(), Compression::default());
    match encoder.write_all(bytes).and_then(|_| encoder.finish()) {
        Ok(stream) => Ok(stream),
        Err(error) => Err(error.to_string()),
    }
}

/// The document in a gzip stream that is already in memory.
pub fn from_gzip_bytes(bytes: &[u8]) -> (document: Result<Vec<u8>, FormatError>)
    ensures
        decompressed(gunzipped(bytes@), document),
{
    decompression(gunzip(bytes))
}

/// What reading a stream comes to, given what the decoder said.
pub fn decompression(found: Result<Vec<u8>, String>) -> (document: Result<Vec<u8>, FormatError>)
    ensures
        match found {
            Ok(payload) => document == Ok::<Vec<u8>, FormatError>(payload),
            Err(reason) => document == Err::<Vec<u8>, FormatError>(FormatError::Io(reason)),
        },
{
    match found {
        Ok(payload) => Ok(payload),
        Err(reason) => Err(FormatError::Io(reason)),
    }
}

/// A stream that can be read gives its bytes, and one that cannot is an `Io`
/// error with the decoder's reason.
pub open spec fn decompressed(
    found: Result<Seq<u8>, Seq<char>>,
    document: Result<Vec<u8>, FormatError>,
) -> bool {
    match found {
        Ok(payload) => document matches Ok(bytes) && bytes@ == payload,
        Err(reason) => document matches Err(FormatError::Io(why)) && why@ == reason,
    }
}

/// A document as a gzip stream. Reading the stream gives the document back.
pub fn to_gzip_bytes(document: &[u8]) -> (stream: Result<Vec<u8>, FormatError>)
    ensures
        decompressed(gzipped(document@), stream),
        stream matches Ok(bytes) ==> gunzipped(bytes@) == Ok::<Seq<u8>, Seq<char>>(document@),
{
    decompression(gzip(document))
}

} // verus!
