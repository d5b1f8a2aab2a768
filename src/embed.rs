//! Configuration embedded in a remote URL: the version byte `0`, then the
//! URL-safe unpadded base64 of the brotli-compressed serialized key map.
use std::io::{Read, Write};

use base64::Engine;
use vstd::prelude::*;
use vstd::string::{StringExecFns, StringSliceAdditionalSpecFns};

verus! {

/// What brotli makes of `data` at quality 11 with a 2^24-byte window.
pub uninterp spec fn brotli_of(data: Seq<u8>) -> Seq<u8>;

/// What brotli decompression makes of `data`, when it is a valid stream.
pub uninterp spec fn unbrotli_of(data: Seq<u8>) -> Option<Seq<u8>>;

/// The URL-safe base64 digit for `v < 64`.
pub open spec fn b64_digit(v: int) -> char {
    seq![
        'A', 'B', 'C', 'D', 'E', 'F', 'G', 'H', 'I', 'J', 'K', 'L', 'M', 'N', 'O', 'P',
        'Q', 'R', 'S', 'T', 'U', 'V', 'W', 'X', 'Y', 'Z', 'a', 'b', 'c', 'd', 'e', 'f',
        'g', 'h', 'i', 'j', 'k', 'l', 'm', 'n', 'o', 'p', 'q', 'r', 's', 't', 'u', 'v',
        'w', 'x', 'y', 'z', '0', '1', '2', '3', '4', '5', '6', '7', '8', '9', '-', '_',
    ][v]
}

/// The URL-safe unpadded base64 text of `data`: four digits for every three
/// bytes, six bits each, high bits first; a last group of one or two bytes
/// gives two or three digits, its spare low bits zero.
pub open spec fn base64url_of(data: Seq<u8>) -> Seq<char>
    decreases data.len(),
{
    if data.len() == 0 {
        Seq::empty()
    } else {
        let b0 = data[0] as int;
        if data.len() == 1 {
            seq![b64_digit(b0 / 4), b64_digit((b0 % 4) * 16)]
        } else {
            let b1 = data[1] as int;
            if data.len() == 2 {
                seq![b64_digit(b0 / 4), b64_digit((b0 % 4) * 16 + b1 / 16), b64_digit((b1 % 16) * 4)]
            } else {
                let b2 = data[2] as int;
                seq![
                    b64_digit(b0 / 4),
                    b64_digit((b0 % 4) * 16 + b1 / 16),
                    b64_digit((b1 % 16) * 4 + b2 / 64),
                    b64_digit(b2 % 64),
                ] + base64url_of(data.skip(3))
            }
        }
    }
}

/// The bytes that URL-safe unpadded base64 text stands for, when it is valid.
pub uninterp spec fn from_base64url_of(text: Seq<u8>) -> Option<Seq<u8>>;

/// Relies on brotli's `CompressorWriter` (8192-byte buffer, quality 11,
/// window 24) writing into memory: the output depends on the input alone.
#[verifier::external_body]
fn compress(data: &[u8]) -> (r: Vec<u8>)
    ensures
        r@ == brotli_of(data@),
{
    let mut writer = brotli::CompressorWriter::new(Vec::new(), 8192, 11, 24);
    writer.write_all(data).ok();
    writer.into_inner()
}

/// Relies on brotli's `Decompressor` reading from memory: the output, or a
/// failure, depends on the input alone.
#[verifier::external_body]
fn decompress(data: &[u8]) -> (r: Option<Vec<u8>>)
    ensures
        match r {
            Some(v) => unbrotli_of(data@) == Some(v@),
            None => unbrotli_of(data@) is None,
        },
{
    let mut out = Vec::new();
    brotli::Decompressor::new(data, 8192).read_to_end(&mut out).ok().map(|_| out)
}

/// Relies on base64's `URL_SAFE_NO_PAD.encode`: the URL-safe alphabet, no
/// padding.
#[verifier::external_body]
fn to_base64url(data: &[u8]) -> (r: String)
    ensures
        r@ == base64url_of(data@),
{
    base64::engine::general_purpose::URL_SAFE_NO_PAD.encode(data)
}

/// Relies on base64's `URL_SAFE_NO_PAD.decode`.
#[verifier::external_body]
fn from_base64url(text: &[u8]) -> (r: Option<Vec<u8>>)
    ensures
        match r {
            Some(v) => from_base64url_of(text@) == Some(v@),
            None => from_base64url_of(text@) is None,
        },
{
    base64::engine::general_purpose::URL_SAFE_NO_PAD.decode(text).ok()
}

/// Why an embedded configuration could not be read.
#[derive(Debug, Clone, Copy, PartialEq, Eq)]
pub enum EmbedError {
    /// It does not start with the version byte `0`.
    UnknownVersion,
    /// The text after the version byte is not URL-safe base64.
    Base64,
    /// The decoded bytes are not a brotli stream.
    Compression,
}

/// Embeds a serialized key map: `0` and the base64 of its compressed bytes.
pub fn embed_config(serialized: &[u8]) -> (r: String)
    ensures
        r@ == seq!['0'] + base64url_of(brotli_of(serialized@)),
{
    let mut s = String::from_str("0");
    let text = to_base64url(compress(serialized).as_slice());
    s.append(text.as_str());
    proof {
        reveal_strlit("0");
    }
    s
}

/// Reads back the serialized key map from an embedded configuration.
pub fn parse_embedded(embedded: &str) -> (r: Result<Vec<u8>, EmbedError>)
    ensures
        ({
            let b = embedded.spec_bytes();
            if b.len() == 0 || b[0] != 48u8 {
                r == Err::<Vec<u8>, EmbedError>(EmbedError::UnknownVersion)
            } else {
                match from_base64url_of(b.skip(1)) {
                    None => r == Err::<Vec<u8>, EmbedError>(EmbedError::Base64),
                    Some(c) => match unbrotli_of(c) {
                        None => r == Err::<Vec<u8>, EmbedError>(EmbedError::Compression),
                        Some(m) => r matches Ok(v) && v@ == m,
                    },
                }
            }
        }),
{
    let b = embedded.as_bytes();
    if b.len() == 0 || b[0] != 48u8 {
        return Err(EmbedError::UnknownVersion);
    }
    let rest = crate::bytes::copy_range(b, 1, b.len());
    assert(rest@ =~= b@.skip(1));
    let compressed = match from_base64url(rest.as_slice()) {
        None => return Err(EmbedError::Base64),
        Some(c) => c,
    };
    match decompress(compressed.as_slice()) {
        None => Err(EmbedError::Compression),
        Some(m) => Ok(m),
    }
}

} // verus!
