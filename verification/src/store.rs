//! Where the snapshot is kept, and how its text travels as bytes.

use vstd::prelude::*;
use vstd::string::*;
use vstd::utf8::{decode_utf8, encode_utf8, valid_utf8};

verus! {

/// The bucket of the object store that holds the snapshot.
pub const SNAPSHOT_BUCKET: &'static str = "markaronin-liked-songs";

/// The key of the snapshot in its bucket.
pub const SNAPSHOT_KEY: &'static str = "liked-songs.txt";

/// The object that was downloaded is no UTF-8 text.
#[derive(Debug, PartialEq, Eq)]
pub struct NotUtf8;

/// The text that the bytes of a downloaded object hold, if they are UTF-8.
pub open spec fn snapshot_of_body(body: Seq<u8>) -> Result<Seq<char>, NotUtf8> {
    if valid_utf8(body) {
        Ok(decode_utf8(body))
    } else {
        Err(NotUtf8)
    }
}

/// What a decoded body stands for.
pub open spec fn decoded_view(decoded: Result<String, NotUtf8>) -> Result<Seq<char>, NotUtf8> {
    match decoded {
        Ok(text) => Ok(text@),
        Err(error) => Err(error),
    }
}

/// Reads the body of the downloaded snapshot as text.
pub fn decode_snapshot(body: Vec<u8>) -> (decoded: Result<String, NotUtf8>)
    ensures
        decoded_view(decoded) == snapshot_of_body(body@),
{
    match utf8_text(body) {
        Some(text) => Ok(text),
        None => Err(NotUtf8),
    }
}

/// The bytes to upload for a snapshot: its text in UTF-8.
pub fn snapshot_body(text: &String) -> (body: Vec<u8>)
    ensures
        body@ == encode_utf8(text@),
{
    text.as_str().as_bytes_vec()
}

/// What was uploaded is what a later download decodes to.
pub proof fn lemma_body_decodes_to_snapshot(text: Seq<char>)
    ensures
        snapshot_of_body(encode_utf8(text)) == Ok::<Seq<char>, NotUtf8>(text),
{
    vstd::utf8::encode_utf8_valid_utf8(text);
    vstd::utf8::encode_utf8_decode_utf8(text);
}

/// `String::from_utf8`, with its error dropped. It gives a string exactly
/// if the bytes are valid UTF-8, and the string then holds the characters
/// that the bytes encode.
#[verifier::external_body]
fn utf8_text(bytes: Vec<u8>) -> (text: Option<String>)
    ensures
        text is Some <==> valid_utf8(bytes@),
        text is Some ==> text->0@ == decode_utf8(bytes@),
{
    String::from_utf8(bytes).ok()
}

} // verus!
