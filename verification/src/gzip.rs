//! Compressed texts.
use std::io::{Read, Write};
use vstd::prelude::*;

verus! {

/// The text that `flate2::read::GzDecoder` reads from `bytes`, where they hold one.
pub uninterp spec fn gunzipped(bytes: Seq<u8>) -> Option<Seq<char>>;

/// Calls `flate2::read::GzDecoder` on `bytes` and reads it to its end as text. Whether that works,
/// and which text comes out, depends on the bytes alone. Nothing is stated of the words in which a
/// failure is reported.
#[verifier::external_body]
pub(crate) fn gunzip(bytes: &[u8]) -> (r: Result<String, String>)
    ensures
        match r {
            Ok(text) => gunzipped(bytes@) == Some(text@),
            Err(_) => gunzipped(bytes@) is None,
        },
{
    let mut decoder = flate2::read::GzDecoder::new(bytes);
    let mut content = String::new();
    match decoder.read_to_string(&mut content) {
        Ok(_) => Ok(content),
        Err(err) => Err(format!("{}", err)),
    }
}

/// The bytes that `flate2::write::GzEncoder` makes of a text at the default level, where it
/// succeeds.
pub uninterp spec fn gzipped(text: Seq<char>) -> Option<Seq<u8>>;

/// Calls `flate2::write::GzEncoder` on `text`, at the default level, and finishes it. Whether that
/// works, and which bytes come out, depends on the text alone: no time or name goes into them. They
/// are read back as the same text. Nothing is stated of the words in which a failure is reported.
#[verifier::external_body]
pub(crate) fn gzip(text: &str) -> (r: Result<Vec<u8>, String>)
    ensures
        match r {
            Ok(bytes) => gzipped(text@) == Some(bytes@) && gunzipped(bytes@) == Some(text@),
            Err(_) => gzipped(text@) is None,
        },
{
    let mut encoder = flate2::write::GzEncoder::new(Vec::new(), flate2::Compression::default());
    if let Err(err) = encoder.write_all(text.as_bytes()) {
        return Err(format!("{}", err));
    }
    match encoder.finish() {
        Ok(bytes) => Ok(bytes),
        Err(err) => Err(format!("{}", err)),
    }
}

/// The compressed form of `text`.
pub fn compressed(text: &str) -> (r: Result<Vec<u8>, String>)
    ensures
        match r {
            Ok(bytes) => gzipped(text@) == Some(bytes@) && gunzipped(bytes@) == Some(text@),
            Err(_) => gzipped(text@) is None,
        },
{
    gzip(text)
}

}
