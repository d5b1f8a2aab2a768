//! States and namespaces as stored blobs: serialization joined with the
//! codec, and the names under which blobs are kept in backend trees.
use vstd::prelude::*;
use vstd::string::StringExecFns;

use crate::codec::{
    check_content, chunks_of, chunks_view, concat_chunks, encode, hex_of, lemma_hex_concat,
    lemma_hex_len, sha256_of, to_hex, CodecError, Encoded, MAX_CHUNK_SIZE, MIN_CHUNK_SIZE,
};
use crate::model::{flatten, ids_view, BlobRef, ConvertError, Namespace, ResourceKey, State};
use crate::wire::{
    deserialize_namespace, deserialize_state, enc_namespace, enc_state, serialize_namespace,
    serialize_state, wf_namespace, wf_state, WireError,
};

verus! {

/// Why a stored state or namespace could not be read back.
pub enum DecodeError {
    /// The content failed the integrity check, or lives in an external store.
    Codec(CodecError),
    /// The content is not a canonical encoding.
    Malformed(WireError),
    /// The content holds an id list whose length is not a multiple of 20.
    Convert(ConvertError),
}

/// Encodes a state as cleartext blobs.
pub fn encode_state(state: &State, chunk_size: usize) -> (r: Encoded)
    requires
        MIN_CHUNK_SIZE <= chunk_size <= MAX_CHUNK_SIZE,
    ensures
        chunks_view(r.chunks@) == chunks_of(enc_state(state@), chunk_size as nat),
        r.sha256@ == sha256_of(enc_state(state@)),
        r.sha256@.len() == 32,
{
    let bytes = serialize_state(&state.to_serialized());
    encode(bytes.as_slice(), chunk_size)
}

/// Encodes a namespace as cleartext blobs.
pub fn encode_namespace(namespace: &Namespace, chunk_size: usize) -> (r: Encoded)
    requires
        MIN_CHUNK_SIZE <= chunk_size <= MAX_CHUNK_SIZE,
    ensures
        chunks_view(r.chunks@) == chunks_of(enc_namespace(namespace@), chunk_size as nat),
        r.sha256@ == sha256_of(enc_namespace(namespace@)),
        r.sha256@.len() == 32,
{
    let bytes = serialize_namespace(&namespace.to_serialized());
    encode(bytes.as_slice(), chunk_size)
}

/// Reads a state from its decoded content, checked against the inner hash
/// `want` when there is one. Returns the content's SHA-256 with the state.
pub fn decode_state_content(content: Vec<u8>, want: Option<&[u8]>) -> (r: Result<(Vec<u8>, State), DecodeError>)
    ensures
        r matches Ok((h, st)) ==> h@ == sha256_of(content@) && h@.len() == 32 && st.wf() && enc_state(st@) == content@,
        (want matches Some(w) ==> w@ == sha256_of(content@)) && (exists|v: crate::wire::WireState| wf_state(v) && enc_state(v) == content@
            && !crate::model::state_has_bad_key_view(v)) ==> r is Ok,
        r matches Err(DecodeError::Codec(e)) ==> e is IntegrityFailure && (want matches Some(w) && w@ != sha256_of(content@)),
{
    let (bytes, h) = match check_content(content, want) {
        Ok(t) => t,
        Err(e) => return Err(DecodeError::Codec(e)),
    };
    let s = match deserialize_state(bytes.as_slice()) {
        Ok(s) => s,
        Err(e) => return Err(DecodeError::Malformed(e)),
    };
    let st = match State::from_serialized(&s) {
        Ok(st) => st,
        Err(e) => {
            proof {
                crate::model::lemma_bad_key_view(&s);
            }
            return Err(DecodeError::Convert(e));
        },
    };
    Ok((h, st))
}

/// Reads a namespace from its decoded content, checked against the inner
/// hash `want` when there is one.
pub fn decode_namespace_content(content: Vec<u8>, want: Option<&[u8]>) -> (r: Result<(Vec<u8>, Namespace), DecodeError>)
    ensures
        r matches Ok((h, ns)) ==> h@ == sha256_of(content@) && h@.len() == 32 && ns.wf() && enc_namespace(ns@) == content@,
        (want matches Some(w) ==> w@ == sha256_of(content@)) && (exists|v: crate::wire::WireNamespace| wf_namespace(v) && enc_namespace(v) == content@
            && !crate::model::namespace_has_bad_key_view(v)) ==> r is Ok,
        r matches Err(DecodeError::Codec(e)) ==> e is IntegrityFailure && (want matches Some(w) && w@ != sha256_of(content@)),
{
    let (bytes, h) = match check_content(content, want) {
        Ok(t) => t,
        Err(e) => return Err(DecodeError::Codec(e)),
    };
    let s = match deserialize_namespace(bytes.as_slice()) {
        Ok(s) => s,
        Err(e) => return Err(DecodeError::Malformed(e)),
    };
    let ns = match Namespace::from_serialized(&s) {
        Ok(ns) => ns,
        Err(e) => return Err(DecodeError::Convert(e)),
    };
    Ok((h, ns))
}

/// Reads a state from cleartext blobs.
pub fn decode_state(chunks: &Vec<Vec<u8>>, want: Option<&[u8]>) -> (r: Result<(Vec<u8>, State), DecodeError>)
    ensures
        r matches Ok((h, st)) ==> h@ == sha256_of(flatten(chunks_view(chunks@))) && st.wf() && enc_state(st@)
            == flatten(chunks_view(chunks@)),
        (want matches Some(w) ==> w@ == sha256_of(flatten(chunks_view(chunks@)))) && (exists|v: crate::wire::WireState|
            wf_state(v) && enc_state(v) == flatten(chunks_view(chunks@)) && !crate::model::state_has_bad_key_view(v))
            ==> r is Ok,
        r matches Err(DecodeError::Codec(e)) ==> e is IntegrityFailure && (want matches Some(w) && w@ != sha256_of(
            flatten(chunks_view(chunks@)),
        )),
{
    decode_state_content(concat_chunks(chunks), want)
}

/// Reads a namespace from cleartext blobs.
pub fn decode_namespace(chunks: &Vec<Vec<u8>>, want: Option<&[u8]>) -> (r: Result<(Vec<u8>, Namespace), DecodeError>)
    ensures
        r matches Ok((h, ns)) ==> h@ == sha256_of(flatten(chunks_view(chunks@))) && ns.wf() && enc_namespace(ns@)
            == flatten(chunks_view(chunks@)),
        (want matches Some(w) ==> w@ == sha256_of(flatten(chunks_view(chunks@)))) && (exists|v: crate::wire::WireNamespace|
            wf_namespace(v) && enc_namespace(v) == flatten(chunks_view(chunks@)) && !crate::model::namespace_has_bad_key_view(v))
            ==> r is Ok,
        r matches Err(DecodeError::Codec(e)) ==> e is IntegrityFailure && (want matches Some(w) && w@ != sha256_of(
            flatten(chunks_view(chunks@)),
        )),
{
    decode_namespace_content(concat_chunks(chunks), want)
}

/// The backend blobs a blob reference names; external keys are refused.
pub fn backend_ids(blob: &BlobRef) -> (r: Result<Vec<Vec<u8>>, CodecError>)
    ensures
        blob.resource_key matches ResourceKey::Git(ids) ==> (r matches Ok(v) && ids_view(v@) == ids_view(ids@)),
        blob.resource_key is Annex ==> (r matches Err(e) && e is UnsupportedResource),
{
    match &blob.resource_key {
        ResourceKey::Git(_) => Ok(blob.oids()),
        ResourceKey::Annex(_) => Err(CodecError::UnsupportedResource),
    }
}

// ---------------------------------------------------------------------------
// Names inside backend trees
// ---------------------------------------------------------------------------

/// The eight decimal digits of `n < 10^8`, zero-padded.
pub open spec fn entry_name(n: u32) -> Seq<u8> {
    seq![
        (48 + (n / 10000000) % 10) as u8,
        (48 + (n / 1000000) % 10) as u8,
        (48 + (n / 100000) % 10) as u8,
        (48 + (n / 10000) % 10) as u8,
        (48 + (n / 1000) % 10) as u8,
        (48 + (n / 100) % 10) as u8,
        (48 + (n / 10) % 10) as u8,
        (48 + n % 10) as u8,
    ]
}

/// The name of the `n`-th chunk inside a chunk tree: `00000000`, `00000001`, ...
pub fn chunk_entry_name(n: u32) -> (r: Vec<u8>)
    requires
        n < 100000000,
    ensures
        r@ == entry_name(n),
{
    let mut v: Vec<u8> = Vec::new();
    v.push((48 + (n / 10000000) % 10) as u8);
    v.push((48 + (n / 1000000) % 10) as u8);
    v.push((48 + (n / 100000) % 10) as u8);
    v.push((48 + (n / 10000) % 10) as u8);
    v.push((48 + (n / 1000) % 10) as u8);
    v.push((48 + (n / 100) % 10) as u8);
    v.push((48 + (n / 10) % 10) as u8);
    v.push((48 + n % 10) as u8);
    assert(v@ =~= entry_name(n));
    v
}

/// Where a random name files an entry: the first two hexadecimal digits name
/// the outer directory, the next two the inner one, the other 36 the entry.
pub fn name_tree_path(name: &[u8]) -> (r: (String, String, String))
    requires
        name@.len() == 20,
    ensures
        r.0@ + r.1@ + r.2@ == hex_of(name@),
        r.0@.len() == 2,
        r.1@.len() == 2,
        r.2@.len() == 36,
{
    let a = to_hex(crate::bytes::copy_range(name, 0, 1).as_slice());
    let b = to_hex(crate::bytes::copy_range(name, 1, 2).as_slice());
    let c = to_hex(crate::bytes::copy_range(name, 2, 20).as_slice());
    proof {
        let n = name@;
        assert(n =~= n.subrange(0, 1) + n.subrange(1, 2) + n.subrange(2, 20));
        lemma_hex_concat(n.subrange(0, 1) + n.subrange(1, 2), n.subrange(2, 20));
        lemma_hex_concat(n.subrange(0, 1), n.subrange(1, 2));
        lemma_hex_len(n.subrange(0, 1));
        lemma_hex_len(n.subrange(1, 2));
        lemma_hex_len(n.subrange(2, 20));
    }
    (a, b, c)
}

/// The directory of a namespace in a state's tree: `ns_` and the hexadecimal
/// random name.
pub fn namespace_dir_name(random_name: &[u8]) -> (r: String)
    ensures
        r@ == "ns_"@ + hex_of(random_name@),
{
    let mut s = String::from_str("ns_");
    let h = to_hex(random_name);
    s.append(h.as_str());
    s
}

} // verus!
