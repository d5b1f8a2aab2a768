//! The chunked, hash-checked blob codec.
//!
//! Encoding hashes the logical content and cuts the stored bytes (the content
//! itself, or its sealed form when a key is configured) into backend blobs of
//! at most `chunk_size` bytes. Decoding joins the blobs again and refuses a
//! result whose SHA-256 differs from the inner hash that was asked for.
use sha2::Digest;
use vstd::prelude::*;
use vstd::string::StringExecFns;

use crate::bytes::{bytes_eq, copy_range};
use crate::model::flatten;
use crate::wire::put_bytes;

verus! {

broadcast use vstd::seq::group_seq_axioms;

/// Smallest and largest chunk sizes.
pub const MIN_CHUNK_SIZE: usize = 10;

pub const MAX_CHUNK_SIZE: usize = 1073741824;

/// The SHA-256 digest of a byte string.
pub uninterp spec fn sha256_of(data: Seq<u8>) -> Seq<u8>;

/// Relies on sha2's `Sha256::digest`: a 32-byte digest that depends on the
/// input bytes alone.
#[verifier::external_body]
fn sha256(data: &[u8]) -> (r: Vec<u8>)
    ensures
        r@ == sha256_of(data@),
        r@.len() == 32,
{
    sha2::Sha256::digest(data).to_vec()
}

/// The lowercase hexadecimal digit for `d < 16`.
pub open spec fn hex_digit(d: int) -> char {
    seq!['0', '1', '2', '3', '4', '5', '6', '7', '8', '9', 'a', 'b', 'c', 'd', 'e', 'f'][d]
}

/// Two lowercase hexadecimal digits per byte, high nibble first.
pub open spec fn hex_of(b: Seq<u8>) -> Seq<char>
    decreases b.len(),
{
    if b.len() == 0 {
        Seq::empty()
    } else {
        seq![hex_digit(b[0] as int / 16), hex_digit(b[0] as int % 16)] + hex_of(b.drop_first())
    }
}

/// Relies on `hex::encode`: two lowercase hexadecimal digits per byte, high
/// nibble first.
#[verifier::external_body]
pub(crate) fn to_hex(b: &[u8]) -> (r: String)
    ensures
        r@ == hex_of(b@),
{
    hex::encode(b)
}

pub proof fn lemma_hex_len(b: Seq<u8>)
    ensures
        hex_of(b).len() == 2 * b.len(),
    decreases b.len(),
{
    if b.len() > 0 {
        lemma_hex_len(b.drop_first());
    }
}

pub proof fn lemma_hex_concat(a: Seq<u8>, b: Seq<u8>)
    ensures
        hex_of(a + b) == hex_of(a) + hex_of(b),
    decreases a.len(),
{
    if a.len() == 0 {
        assert(a + b =~= b);
    } else {
        assert((a + b).drop_first() =~= a.drop_first() + b);
        lemma_hex_concat(a.drop_first(), b);
        assert(hex_of(a + b) =~= seq![hex_digit(a[0] as int / 16), hex_digit(a[0] as int % 16)] + (hex_of(
            a.drop_first(),
        ) + hex_of(b)));
    }
}

/// `s` cut into pieces of `c` bytes, then one last piece of what is left,
/// which is empty when `c` divides the length.
pub open spec fn chunks_of(s: Seq<u8>, c: nat) -> Seq<Seq<u8>>
    recommends
        c > 0,
    decreases s.len(),
{
    if c == 0 || s.len() < c {
        seq![s]
    } else {
        seq![s.take(c as int)] + chunks_of(s.skip(c as int), c)
    }
}

pub proof fn lemma_flatten_prepend(a: Seq<u8>, rest: Seq<Seq<u8>>)
    ensures
        flatten(seq![a] + rest) == a + flatten(rest),
    decreases rest.len(),
{
    if rest.len() == 0 {
        assert((seq![a] + rest).drop_last() =~= Seq::<Seq<u8>>::empty());
        assert(flatten(Seq::<Seq<u8>>::empty()) =~= Seq::<u8>::empty());
        assert(flatten(seq![a] + rest) =~= a + flatten(rest));
    } else {
        assert((seq![a] + rest).drop_last() =~= seq![a] + rest.drop_last());
        lemma_flatten_prepend(a, rest.drop_last());
        assert(flatten(seq![a] + rest) =~= a + flatten(rest));
    }
}

/// Joining the chunks gives back the bytes that were cut.
pub proof fn lemma_chunks_flatten(s: Seq<u8>, c: nat)
    requires
        c > 0,
    ensures
        flatten(chunks_of(s, c)) == s,
    decreases s.len(),
{
    if s.len() < c {
        lemma_flatten_prepend(s, Seq::empty());
        assert(seq![s] + Seq::<Seq<u8>>::empty() =~= seq![s]);
        assert(flatten(Seq::<Seq<u8>>::empty()) =~= Seq::<u8>::empty());
        assert(s + Seq::<u8>::empty() =~= s);
    } else {
        lemma_chunks_flatten(s.skip(c as int), c);
        lemma_flatten_prepend(s.take(c as int), chunks_of(s.skip(c as int), c));
        assert(s.take(c as int) + s.skip(c as int) =~= s);
    }
}

/// Every chunk but the last is exactly `c` bytes long; the last is shorter.
pub proof fn lemma_chunk_sizes(s: Seq<u8>, c: nat)
    requires
        c > 0,
    ensures
        chunks_of(s, c).len() == s.len() / c + 1,
        forall|i: int| 0 <= i < chunks_of(s, c).len() - 1 ==> (#[trigger] chunks_of(s, c)[i]).len() == c,
        chunks_of(s, c).last().len() == s.len() % c,
    decreases s.len(),
{
    if s.len() >= c {
        lemma_chunk_sizes(s.skip(c as int), c);
        let rest = chunks_of(s.skip(c as int), c);
        assert forall|i: int| 0 <= i < chunks_of(s, c).len() - 1 implies (#[trigger] chunks_of(
            s,
            c,
        )[i]).len() == c by {
            if i > 0 {
                assert(chunks_of(s, c)[i] == rest[i - 1]);
            }
        }
        let n = s.len() as int;
        let ci = c as int;
        vstd::arithmetic::div_mod::lemma_div_minus_one(n, ci);
        vstd::arithmetic::div_mod::lemma_mod_sub_multiples_vanish(n, ci);
        assert(-ci + n == n - ci);
    } else {
        vstd::arithmetic::div_mod::lemma_basic_div_specific_divisor(c as int);
        vstd::arithmetic::div_mod::lemma_small_mod(s.len() as nat, c);
    }
}

pub open spec fn chunks_view(v: Seq<Vec<u8>>) -> Seq<Seq<u8>> {
    v.map_values(|x: Vec<u8>| x@)
}

/// Cuts `s` into blobs of `chunk_size` bytes and one last, shorter blob.
pub fn split_chunks(s: &[u8], chunk_size: usize) -> (r: Vec<Vec<u8>>)
    requires
        chunk_size > 0,
    ensures
        chunks_view(r@) == chunks_of(s@, chunk_size as nat),
{
    let mut out: Vec<Vec<u8>> = Vec::new();
    let mut pos: usize = 0;
    assert(s@.skip(0) =~= s@);
    assert(chunks_view(out@) =~= Seq::<Seq<u8>>::empty());
    while s.len() - pos >= chunk_size
        invariant
            chunk_size > 0,
            0 <= pos <= s@.len(),
            chunks_view(out@) + chunks_of(s@.skip(pos as int), chunk_size as nat) == chunks_of(
                s@,
                chunk_size as nat,
            ),
        decreases s@.len() - pos,
    {
        let piece = copy_range(s, pos, pos + chunk_size);
        let ghost prev = out@;
        out.push(piece);
        proof {
            let t = s@.skip(pos as int);
            assert(t.take(chunk_size as int) =~= piece@);
            assert(t.skip(chunk_size as int) =~= s@.skip(pos + chunk_size));
            assert(chunks_view(out@) =~= chunks_view(prev).push(piece@));
            assert(chunks_view(out@) + chunks_of(s@.skip(pos + chunk_size), chunk_size as nat) =~= chunks_view(
                prev,
            ) + (seq![piece@] + chunks_of(s@.skip(pos + chunk_size), chunk_size as nat)));
        }
        pos = pos + chunk_size;
    }
    let last = copy_range(s, pos, s.len());
    let ghost prev = out@;
    out.push(last);
    proof {
        assert(last@ =~= s@.skip(pos as int));
        assert(chunks_view(out@) =~= chunks_view(prev).push(last@));
        assert(chunks_view(out@) =~= chunks_view(prev) + chunks_of(s@.skip(pos as int), chunk_size as nat));
    }
    out
}

/// Joins blobs back into one byte string.
pub fn concat_chunks(chunks: &Vec<Vec<u8>>) -> (r: Vec<u8>)
    ensures
        r@ == flatten(chunks_view(chunks@)),
{
    let mut out: Vec<u8> = Vec::new();
    let mut i: usize = 0;
    while i < chunks.len()
        invariant
            0 <= i <= chunks@.len(),
            out@ == flatten(chunks_view(chunks@).take(i as int)),
        decreases chunks@.len() - i,
    {
        put_bytes(&mut out, chunks[i].as_slice());
        assert(chunks_view(chunks@).take(i as int + 1).drop_last() =~= chunks_view(chunks@).take(i as int));
        i = i + 1;
    }
    assert(chunks_view(chunks@).take(chunks@.len() as int) =~= chunks_view(chunks@));
    out
}

/// What the codec produces: the blobs to store, in order, and the inner hash.
pub struct Encoded {
    pub chunks: Vec<Vec<u8>>,
    pub sha256: Vec<u8>,
}

/// Encodes cleartext content: blobs of the content itself, and its SHA-256.
pub fn encode(content: &[u8], chunk_size: usize) -> (r: Encoded)
    requires
        MIN_CHUNK_SIZE <= chunk_size <= MAX_CHUNK_SIZE,
    ensures
        chunks_view(r.chunks@) == chunks_of(content@, chunk_size as nat),
        r.sha256@ == sha256_of(content@),
        r.sha256@.len() == 32,
{
    Encoded { chunks: split_chunks(content, chunk_size), sha256: sha256(content) }
}

/// Encodes content that a key sealed into `sealed`: the blobs hold the sealed
/// bytes, the inner hash is still that of the content.
pub fn encode_sealed(content: &[u8], sealed: &[u8], chunk_size: usize) -> (r: Encoded)
    requires
        MIN_CHUNK_SIZE <= chunk_size <= MAX_CHUNK_SIZE,
    ensures
        chunks_view(r.chunks@) == chunks_of(sealed@, chunk_size as nat),
        r.sha256@ == sha256_of(content@),
        r.sha256@.len() == 32,
{
    Encoded { chunks: split_chunks(sealed, chunk_size), sha256: sha256(content) }
}

/// Why a decode failed.
pub enum CodecError {
    /// The content's SHA-256 is not the inner hash that was asked for.
    IntegrityFailure { expected: Vec<u8>, got: Vec<u8> },
    /// The blob lives in an external store, which the codec does not read.
    UnsupportedResource,
}

impl CodecError {
    /// A one-line description, naming both hashes in hexadecimal.
    pub fn message(&self) -> (r: String)
        ensures
            self matches CodecError::IntegrityFailure { expected, got } ==> r@ == "Expected sha256 "@
                + hex_of(expected@) + ", got "@ + hex_of(got@),
            self is UnsupportedResource ==> r@ == "external resource keys are not supported"@,
    {
        match self {
            CodecError::IntegrityFailure { expected, got } => {
                let mut m = String::from_str("Expected sha256 ");
                let e = to_hex(expected.as_slice());
                m.append(e.as_str());
                m.append(", got ");
                let g = to_hex(got.as_slice());
                m.append(g.as_str());
                m
            },
            CodecError::UnsupportedResource => String::from_str("external resource keys are not supported"),
        }
    }
}

/// Checks decoded content against the inner hash that was asked for, if any,
/// and hands back the content with its SHA-256.
pub fn check_content(content: Vec<u8>, want: Option<&[u8]>) -> (r: Result<(Vec<u8>, Vec<u8>), CodecError>)
    ensures
        r matches Ok((d, h)) ==> d@ == content@ && h@ == sha256_of(content@) && h@.len() == 32,
        r is Ok <==> (want matches Some(w) ==> w@ == sha256_of(content@)),
        r matches Err(e) ==> (e matches CodecError::IntegrityFailure { expected, got } && want matches Some(w)
            && expected@ == w@ && got@ == sha256_of(content@)),
{
    let h = sha256(content.as_slice());
    match want {
        Some(w) => {
            if !bytes_eq(w, h.as_slice()) {
                return Err(CodecError::IntegrityFailure { expected: crate::bytes::copy_bytes(w), got: h });
            }
        },
        None => {},
    }
    Ok((content, h))
}

/// Decodes cleartext blobs: joins them and checks the inner hash.
pub fn decode(chunks: &Vec<Vec<u8>>, want: Option<&[u8]>) -> (r: Result<(Vec<u8>, Vec<u8>), CodecError>)
    ensures
        r matches Ok((d, h)) ==> d@ == flatten(chunks_view(chunks@)) && h@ == sha256_of(d@) && h@.len() == 32,
        r is Ok <==> (want matches Some(w) ==> w@ == sha256_of(flatten(chunks_view(chunks@)))),
        r matches Err(e) ==> e is IntegrityFailure,
{
    let content = concat_chunks(chunks);
    check_content(content, want)
}

/// Cleartext round trip: the blobs of `s`, joined and checked against the
/// inner hash that encoding computed, give back `s`; and the inner hash is the
/// SHA-256 of `s` whatever the chunk size.
pub proof fn lemma_codec_round_trip(s: Seq<u8>, c: nat)
    requires
        c >= MIN_CHUNK_SIZE,
    ensures
        flatten(chunks_of(s, c)) == s,
        sha256_of(flatten(chunks_of(s, c))) == sha256_of(s),
{
    lemma_chunks_flatten(s, c);
}

/// Chunking independence: two chunk sizes give the same inner hash, and
/// different blob lists once the content is at least as long as the smaller
/// size.
pub proof fn lemma_chunking_independence(s: Seq<u8>, c1: nat, c2: nat)
    requires
        c1 >= MIN_CHUNK_SIZE,
        c2 >= MIN_CHUNK_SIZE,
        c1 != c2,
        s.len() >= c1 || s.len() >= c2,
    ensures
        chunks_of(s, c1) != chunks_of(s, c2),
{
    let (a, b) = if c1 < c2 { (c1, c2) } else { (c2, c1) };
    assert(s.len() >= a);
    lemma_chunk_sizes(s, a);
    lemma_chunk_sizes(s, b);
    if s.len() >= b {
        assert(chunks_of(s, a)[0].len() == a);
        assert(chunks_of(s, b)[0].len() == b);
    } else {
        assert(chunks_of(s, b) == seq![s]);
        if s.len() == a {
            assert(chunks_of(s, a).len() == 2) by {
                vstd::arithmetic::div_mod::lemma_div_basics(a as int);
            }
        } else {
            assert(chunks_of(s, a)[0].len() == a);
        }
    }
    if c1 < c2 {
        assert(chunks_of(s, a) != chunks_of(s, b));
    } else {
        assert(chunks_of(s, b) != chunks_of(s, a));
    }
}

} // verus!
