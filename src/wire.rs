//! The canonical binary schema of states and namespaces: little-endian fixed
//! width integers, `u32` variant tags, `u64` length prefixes, raw object ids
//! (20 bytes) and inner hashes (32 bytes), maps in strictly ascending key order.
use vstd::bytes::*;
use vstd::prelude::*;

use crate::bytes::lex_lt;

verus! {

broadcast use vstd::seq::group_seq_axioms;

// ---------------------------------------------------------------------------
// Primitive encodings
// ---------------------------------------------------------------------------

pub open spec fn le32(x: u32) -> Seq<u8> {
    spec_u32_to_le_bytes(x)
}

pub open spec fn le64(x: u64) -> Seq<u8> {
    spec_u64_to_le_bytes(x)
}

/// A length-prefixed byte string.
pub open spec fn enc_bytes(s: Seq<u8>) -> Seq<u8> {
    le64(s.len() as u64) + s
}

/// The items of a sequence, one after the other.
pub open spec fn enc_list<T>(s: Seq<T>, f: spec_fn(T) -> Seq<u8>) -> Seq<u8>
    decreases s.len(),
{
    if s.len() == 0 {
        Seq::empty()
    } else {
        f(s[0]) + enc_list(s.drop_first(), f)
    }
}

/// `e` stands in `b` at offset `pos`.
pub open spec fn prefix_at(b: Seq<u8>, pos: int, e: Seq<u8>) -> bool {
    0 <= pos && pos + e.len() <= b.len() && b.subrange(pos, pos + e.len()) == e
}

/// Keys strictly ascending: sorted and free of duplicates.
pub open spec fn sorted_keys<V>(s: Seq<(Seq<u8>, V)>) -> bool {
    forall|i: int| 0 <= i < s.len() - 1 ==> #[trigger] lex_lt(s[i].0, s[i + 1].0)
}

pub proof fn lemma_prefix_at_concat(b: Seq<u8>, pos: int, x: Seq<u8>, y: Seq<u8>)
    ensures
        prefix_at(b, pos, x + y) <==> (prefix_at(b, pos, x) && prefix_at(b, pos + x.len(), y)),
{
    if prefix_at(b, pos, x + y) {
        assert(b.subrange(pos, pos + x.len()) =~= (x + y).subrange(0, x.len() as int));
        assert(b.subrange(pos + x.len(), pos + x.len() + y.len()) =~= (x + y).subrange(
            x.len() as int,
            (x + y).len() as int,
        ));
        assert((x + y).subrange(0, x.len() as int) =~= x);
        assert((x + y).subrange(x.len() as int, (x + y).len() as int) =~= y);
    }
    if prefix_at(b, pos, x) && prefix_at(b, pos + x.len(), y) {
        assert(b.subrange(pos, pos + (x + y).len()) =~= b.subrange(pos, pos + x.len()) + b.subrange(
            pos + x.len(),
            pos + x.len() + y.len(),
        ));
    }
}

pub proof fn lemma_enc_list_push<T>(s: Seq<T>, x: T, f: spec_fn(T) -> Seq<u8>)
    ensures
        enc_list(s.push(x), f) == enc_list(s, f) + f(x),
    decreases s.len(),
{
    if s.len() == 0 {
        assert(s.push(x).drop_first() =~= Seq::<T>::empty());
        assert(enc_list(Seq::<T>::empty(), f) =~= Seq::empty());
        assert(enc_list(s, f) =~= Seq::empty());
        assert(enc_list(s.push(x), f) =~= f(x));
    } else {
        assert(s.push(x).drop_first() =~= s.drop_first().push(x));
        lemma_enc_list_push(s.drop_first(), x, f);
        assert(enc_list(s.push(x), f) =~= f(s[0]) + (enc_list(s.drop_first(), f) + f(x)));
    }
}

pub proof fn lemma_enc_list_len<T>(s: Seq<T>, f: spec_fn(T) -> Seq<u8>)
    requires
        forall|x: T| #[trigger] f(x).len() >= 1,
    ensures
        enc_list(s, f).len() >= s.len(),
    decreases s.len(),
{
    if s.len() > 0 {
        lemma_enc_list_len(s.drop_first(), f);
        assert(f(s[0]).len() >= 1);
    }
}

pub proof fn lemma_enc_list_skip<T>(s: Seq<T>, i: int, f: spec_fn(T) -> Seq<u8>)
    requires
        0 <= i < s.len(),
    ensures
        enc_list(s.skip(i), f) == f(s[i]) + enc_list(s.skip(i + 1), f),
{
    assert(s.skip(i).drop_first() =~= s.skip(i + 1));
}

// ---------------------------------------------------------------------------
// Readers and writers of the primitives
// ---------------------------------------------------------------------------

/// Appends `s` to `out`.
pub fn put_bytes(out: &mut Vec<u8>, s: &[u8])
    ensures
        final(out)@ == old(out)@ + s@,
{
    let ghost start = out@;
    let mut i: usize = 0;
    while i < s.len()
        invariant
            0 <= i <= s@.len(),
            out@ == start + s@.subrange(0, i as int),
        decreases s@.len() - i,
    {
        out.push(s[i]);
        assert(s@.subrange(0, i as int + 1) =~= s@.subrange(0, i as int).push(s@[i as int]));
        i = i + 1;
    }
    assert(s@.subrange(0, s@.len() as int) =~= s@);
}

pub fn put_u32(out: &mut Vec<u8>, x: u32)
    ensures
        final(out)@ == old(out)@ + le32(x),
{
    let v = u32_to_le_bytes(x);
    put_bytes(out, v.as_slice());
}

pub fn put_u64(out: &mut Vec<u8>, x: u64)
    ensures
        final(out)@ == old(out)@ + le64(x),
{
    let v = u64_to_le_bytes(x);
    put_bytes(out, v.as_slice());
}

/// Appends a length-prefixed byte string.
pub fn put_prefixed(out: &mut Vec<u8>, s: &[u8])
    ensures
        final(out)@ == old(out)@ + enc_bytes(s@),
{
    put_u64(out, s.len() as u64);
    put_bytes(out, s);
    assert(final(out)@ =~= old(out)@ + enc_bytes(s@));
}

/// Reads `n` raw bytes at `pos`.
pub fn get_fixed(b: &[u8], pos: usize, n: usize) -> (r: Option<(Vec<u8>, usize)>)
    ensures
        r matches Some((v, p)) ==> v@.len() == n && prefix_at(b@, pos as int, v@) && p == pos + n,
        r is None ==> pos as int + n > b@.len(),
{
    if pos > b.len() || n > b.len() - pos {
        return None;
    }
    let v = crate::bytes::copy_range(b, pos, pos + n);
    Some((v, pos + n))
}

pub fn get_u32(b: &[u8], pos: usize) -> (r: Option<(u32, usize)>)
    ensures
        r matches Some((v, p)) ==> prefix_at(b@, pos as int, le32(v)) && p == pos + 4,
        forall|v: u32| #[trigger] prefix_at(b@, pos as int, le32(v)) ==> r == Some((v, (pos + 4) as usize)),
{
    proof {
        lemma_auto_spec_u32_to_from_le_bytes();
    }
    match get_fixed(b, pos, 4) {
        None => None,
        Some((v, p)) => {
            let x = u32_from_le_bytes(v.as_slice());
            Some((x, p))
        },
    }
}

pub fn get_u64(b: &[u8], pos: usize) -> (r: Option<(u64, usize)>)
    ensures
        r matches Some((v, p)) ==> prefix_at(b@, pos as int, le64(v)) && p == pos + 8,
        forall|v: u64| #[trigger] prefix_at(b@, pos as int, le64(v)) ==> r == Some((v, (pos + 8) as usize)),
{
    proof {
        lemma_auto_spec_u64_to_from_le_bytes();
    }
    match get_fixed(b, pos, 8) {
        None => None,
        Some((v, p)) => {
            let x = u64_from_le_bytes(v.as_slice());
            Some((x, p))
        },
    }
}

/// Reads a length-prefixed byte string.
pub fn get_prefixed(b: &[u8], pos: usize) -> (r: Option<(Vec<u8>, usize)>)
    ensures
        r matches Some((v, p)) ==> prefix_at(b@, pos as int, enc_bytes(v@)) && p == pos
            + enc_bytes(v@).len(),
        forall|s: Seq<u8>| #[trigger]
            prefix_at(b@, pos as int, enc_bytes(s)) ==> (r matches Some((v, p)) && v@ == s && p
                == pos + enc_bytes(s).len()),
{
    proof {
        lemma_auto_spec_u64_to_from_le_bytes();
        assert forall|s: Seq<u8>| #[trigger]
            prefix_at(b@, pos as int, enc_bytes(s)) implies prefix_at(b@, pos as int, le64(
            s.len() as u64,
        )) && prefix_at(b@, pos + 8, s) by {
            lemma_prefix_at_concat(b@, pos as int, le64(s.len() as u64), s);
        }
    }
    let blen = b.len();
    let (n, p) = match get_u64(b, pos) {
        None => return None,
        Some(t) => t,
    };
    if n > usize::MAX as u64 {
        proof {
            assert forall|s: Seq<u8>| #[trigger]
                prefix_at(b@, pos as int, enc_bytes(s)) implies false by {
                lemma_prefix_at_concat(b@, pos as int, le64(s.len() as u64), s);
            }
        }
        return None;
    }
    let (v, q) = match get_fixed(b, p, n as usize) {
        None => {
            proof {
                assert forall|s: Seq<u8>| #[trigger]
                    prefix_at(b@, pos as int, enc_bytes(s)) implies false by {
                    lemma_prefix_at_concat(b@, pos as int, le64(s.len() as u64), s);
                    assert(s.len() <= blen);
                    assert(n == s.len() as u64);
                    assert(n as int == s.len());
                }
            }
            return None;
        },
        Some(t) => t,
    };
    proof {
        lemma_prefix_at_concat(b@, pos as int, le64(n), v@);
        assert forall|s: Seq<u8>| #[trigger]
            prefix_at(b@, pos as int, enc_bytes(s)) implies v@ == s by {
            lemma_prefix_at_concat(b@, pos as int, le64(s.len() as u64), s);
            assert(s.len() <= blen);
            assert(n == s.len() as u64);
            assert(n as int == s.len());
            assert(v@ =~= b@.subrange(p as int, p + n));
        }
    }
    Some((v, q))
}

// ---------------------------------------------------------------------------
// The serialized records and their mathematical values
// ---------------------------------------------------------------------------

/// Where a blob lives: a flat array of 20-byte object ids, or an external key.
pub enum SerializedResourceKey {
    Git(Vec<u8>),
    Annex(Vec<u8>),
}

pub struct SerializedBlobRef {
    pub resource_key: SerializedResourceKey,
    pub sha256: Vec<u8>,
}

pub struct SerializedPackRef {
    pub blob_ref: SerializedBlobRef,
    pub random_name: Vec<u8>,
}

pub enum SerializedRef {
    Direct(Vec<u8>),
    Symbolic(Vec<u8>, Option<Vec<u8>>),
}

/// A namespace as stored: refs in ascending name order, the latest pack, and
/// the namespace's random name.
pub struct SerializedNamespace {
    pub refs: Vec<(Vec<u8>, SerializedRef)>,
    pub pack: Option<SerializedPackRef>,
    pub random_name: Vec<u8>,
}

/// A state as stored: namespaces in ascending name order and the parent states.
pub struct SerializedState {
    pub namespaces: Vec<(Vec<u8>, SerializedBlobRef)>,
    pub parents: Vec<SerializedBlobRef>,
}

pub enum WireKey {
    Git(Seq<u8>),
    Annex(Seq<u8>),
}

pub struct WireBlob {
    pub key: WireKey,
    pub hash: Seq<u8>,
}

pub struct WirePack {
    pub blob: WireBlob,
    pub name: Seq<u8>,
}

pub enum WireRef {
    Direct(Seq<u8>),
    Symbolic(Seq<u8>, Option<Seq<u8>>),
}

pub struct WireNamespace {
    pub refs: Seq<(Seq<u8>, WireRef)>,
    pub pack: Option<WirePack>,
    pub name: Seq<u8>,
}

pub struct WireState {
    pub namespaces: Seq<(Seq<u8>, WireBlob)>,
    pub parents: Seq<WireBlob>,
}

impl View for SerializedResourceKey {
    type V = WireKey;

    open spec fn view(&self) -> WireKey {
        match self {
            SerializedResourceKey::Git(b) => WireKey::Git(b@),
            SerializedResourceKey::Annex(b) => WireKey::Annex(b@),
        }
    }
}

impl View for SerializedBlobRef {
    type V = WireBlob;

    open spec fn view(&self) -> WireBlob {
        WireBlob { key: self.resource_key@, hash: self.sha256@ }
    }
}

impl View for SerializedPackRef {
    type V = WirePack;

    open spec fn view(&self) -> WirePack {
        WirePack { blob: self.blob_ref@, name: self.random_name@ }
    }
}

pub open spec fn opt_bytes_view(o: Option<Vec<u8>>) -> Option<Seq<u8>> {
    match o {
        Some(v) => Some(v@),
        None => None,
    }
}

impl View for SerializedRef {
    type V = WireRef;

    open spec fn view(&self) -> WireRef {
        match self {
            SerializedRef::Direct(id) => WireRef::Direct(id@),
            SerializedRef::Symbolic(n, id) => WireRef::Symbolic(n@, opt_bytes_view(*id)),
        }
    }
}

pub open spec fn ref_entries_view(s: Seq<(Vec<u8>, SerializedRef)>) -> Seq<(Seq<u8>, WireRef)> {
    s.map_values(|e: (Vec<u8>, SerializedRef)| (e.0@, e.1@))
}

pub open spec fn ns_entries_view(s: Seq<(Vec<u8>, SerializedBlobRef)>) -> Seq<(Seq<u8>, WireBlob)> {
    s.map_values(|e: (Vec<u8>, SerializedBlobRef)| (e.0@, e.1@))
}

pub open spec fn blobs_view(s: Seq<SerializedBlobRef>) -> Seq<WireBlob> {
    s.map_values(|e: SerializedBlobRef| e@)
}

impl View for SerializedNamespace {
    type V = WireNamespace;

    open spec fn view(&self) -> WireNamespace {
        WireNamespace {
            refs: ref_entries_view(self.refs@),
            pack: match self.pack {
                Some(p) => Some(p@),
                None => None,
            },
            name: self.random_name@,
        }
    }
}

impl View for SerializedState {
    type V = WireState;

    open spec fn view(&self) -> WireState {
        WireState { namespaces: ns_entries_view(self.namespaces@), parents: blobs_view(self.parents@) }
    }
}

// ---------------------------------------------------------------------------
// Well-formedness and the encoding of each record
// ---------------------------------------------------------------------------

pub open spec fn wf_blob(b: WireBlob) -> bool {
    b.hash.len() == 32
}

pub open spec fn wf_pack(p: WirePack) -> bool {
    wf_blob(p.blob) && p.name.len() == 20
}

pub open spec fn wf_ref(r: WireRef) -> bool {
    match r {
        WireRef::Direct(id) => id.len() == 20,
        WireRef::Symbolic(_, id) => id matches Some(x) ==> x.len() == 20,
    }
}

pub open spec fn wf_namespace(n: WireNamespace) -> bool {
    &&& sorted_keys(n.refs)
    &&& forall|i: int| 0 <= i < n.refs.len() ==> wf_ref(#[trigger] n.refs[i].1)
    &&& n.pack matches Some(p) ==> wf_pack(p)
    &&& n.name.len() == 20
}

/// Parents strictly ascending by their encoded bytes.
pub open spec fn sorted_parents(s: Seq<WireBlob>) -> bool {
    forall|i: int| 0 <= i < s.len() - 1 ==> #[trigger] lex_lt(enc_blob(s[i]), enc_blob(s[i + 1]))
}

pub open spec fn wf_parents(v: Seq<WireBlob>) -> bool {
    sorted_parents(v) && forall|i: int| 0 <= i < v.len() ==> wf_blob(#[trigger] v[i])
}

pub open spec fn wf_state(s: WireState) -> bool {
    &&& sorted_keys(s.namespaces)
    &&& forall|i: int| 0 <= i < s.namespaces.len() ==> wf_blob(#[trigger] s.namespaces[i].1)
    &&& forall|i: int| 0 <= i < s.parents.len() ==> wf_blob(#[trigger] s.parents[i])
    &&& sorted_parents(s.parents)
}

pub open spec fn enc_key(k: WireKey) -> Seq<u8> {
    match k {
        WireKey::Git(b) => le32(0) + enc_bytes(b),
        WireKey::Annex(b) => le32(1) + enc_bytes(b),
    }
}

pub open spec fn enc_blob(b: WireBlob) -> Seq<u8> {
    enc_key(b.key) + b.hash
}

pub open spec fn enc_pack(p: WirePack) -> Seq<u8> {
    enc_blob(p.blob) + p.name
}

pub open spec fn enc_opt_id(o: Option<Seq<u8>>) -> Seq<u8> {
    match o {
        None => seq![0u8],
        Some(id) => seq![1u8] + id,
    }
}

pub open spec fn enc_ref(r: WireRef) -> Seq<u8> {
    match r {
        WireRef::Direct(id) => le32(0) + id,
        WireRef::Symbolic(n, id) => le32(1) + enc_bytes(n) + enc_opt_id(id),
    }
}

pub open spec fn enc_ref_entry(e: (Seq<u8>, WireRef)) -> Seq<u8> {
    enc_bytes(e.0) + enc_ref(e.1)
}

pub open spec fn enc_ns_entry(e: (Seq<u8>, WireBlob)) -> Seq<u8> {
    enc_bytes(e.0) + enc_blob(e.1)
}

pub open spec fn enc_opt_pack(o: Option<WirePack>) -> Seq<u8> {
    match o {
        None => seq![0u8],
        Some(p) => seq![1u8] + enc_pack(p),
    }
}

pub open spec fn ref_entry_fn() -> spec_fn((Seq<u8>, WireRef)) -> Seq<u8> {
    |e: (Seq<u8>, WireRef)| enc_ref_entry(e)
}

pub open spec fn ns_entry_fn() -> spec_fn((Seq<u8>, WireBlob)) -> Seq<u8> {
    |e: (Seq<u8>, WireBlob)| enc_ns_entry(e)
}

pub open spec fn blob_fn() -> spec_fn(WireBlob) -> Seq<u8> {
    |e: WireBlob| enc_blob(e)
}

pub open spec fn enc_namespace(n: WireNamespace) -> Seq<u8> {
    le64(n.refs.len() as u64) + enc_list(n.refs, ref_entry_fn()) + enc_opt_pack(n.pack) + n.name
}

pub open spec fn enc_state(s: WireState) -> Seq<u8> {
    le64(s.namespaces.len() as u64) + enc_list(s.namespaces, ns_entry_fn()) + le64(
        s.parents.len() as u64,
    ) + enc_list(s.parents, blob_fn())
}

// ---------------------------------------------------------------------------
// Writers
// ---------------------------------------------------------------------------

pub fn put_key(out: &mut Vec<u8>, k: &SerializedResourceKey)
    ensures
        final(out)@ == old(out)@ + enc_key(k@),
{
    match k {
        SerializedResourceKey::Git(b) => {
            put_u32(out, 0);
            put_prefixed(out, b.as_slice());
        },
        SerializedResourceKey::Annex(b) => {
            put_u32(out, 1);
            put_prefixed(out, b.as_slice());
        },
    }
    assert(final(out)@ =~= old(out)@ + enc_key(k@));
}

pub fn put_blob(out: &mut Vec<u8>, b: &SerializedBlobRef)
    ensures
        final(out)@ == old(out)@ + enc_blob(b@),
{
    put_key(out, &b.resource_key);
    put_bytes(out, b.sha256.as_slice());
    assert(final(out)@ =~= old(out)@ + enc_blob(b@));
}

pub fn put_ref(out: &mut Vec<u8>, r: &SerializedRef)
    ensures
        final(out)@ == old(out)@ + enc_ref(r@),
{
    match r {
        SerializedRef::Direct(id) => {
            put_u32(out, 0);
            put_bytes(out, id.as_slice());
        },
        SerializedRef::Symbolic(n, id) => {
            put_u32(out, 1);
            put_prefixed(out, n.as_slice());
            match id {
                None => {
                    out.push(0u8);
                },
                Some(x) => {
                    out.push(1u8);
                    put_bytes(out, x.as_slice());
                },
            }
        },
    }
    assert(final(out)@ =~= old(out)@ + enc_ref(r@));
}

/// The canonical bytes of a namespace.
pub fn serialize_namespace(n: &SerializedNamespace) -> (r: Vec<u8>)
    ensures
        r@ == enc_namespace(n@),
{
    let mut out: Vec<u8> = Vec::new();
    put_u64(&mut out, n.refs.len() as u64);
    let ghost vs = n@.refs;
    let mut i: usize = 0;
    while i < n.refs.len()
        invariant
            vs == ref_entries_view(n.refs@),
            0 <= i <= vs.len(),
            out@ == le64(vs.len() as u64) + enc_list(vs.take(i as int), ref_entry_fn()),
        decreases vs.len() - i,
    {
        let ghost before = out@;
        put_prefixed(&mut out, n.refs[i].0.as_slice());
        put_ref(&mut out, &n.refs[i].1);
        proof {
            assert(vs.take(i as int + 1) =~= vs.take(i as int).push(vs[i as int]));
            lemma_enc_list_push(vs.take(i as int), vs[i as int], ref_entry_fn());
            assert(out@ =~= le64(vs.len() as u64) + enc_list(vs.take(i as int + 1), ref_entry_fn()));
        }
        i = i + 1;
    }
    match &n.pack {
        None => {
            out.push(0u8);
        },
        Some(p) => {
            out.push(1u8);
            put_blob(&mut out, &p.blob_ref);
            put_bytes(&mut out, p.random_name.as_slice());
        },
    }
    put_bytes(&mut out, n.random_name.as_slice());
    assert(vs.take(vs.len() as int) =~= vs);
    assert(out@ =~= enc_namespace(n@));
    out
}

/// The canonical bytes of a state.
pub fn serialize_state(st: &SerializedState) -> (r: Vec<u8>)
    ensures
        r@ == enc_state(st@),
{
    let mut out: Vec<u8> = Vec::new();
    put_u64(&mut out, st.namespaces.len() as u64);
    let ghost vs = st@.namespaces;
    let mut i: usize = 0;
    while i < st.namespaces.len()
        invariant
            vs == ns_entries_view(st.namespaces@),
            0 <= i <= vs.len(),
            out@ == le64(vs.len() as u64) + enc_list(vs.take(i as int), ns_entry_fn()),
        decreases vs.len() - i,
    {
        put_prefixed(&mut out, st.namespaces[i].0.as_slice());
        put_blob(&mut out, &st.namespaces[i].1);
        proof {
            assert(vs.take(i as int + 1) =~= vs.take(i as int).push(vs[i as int]));
            lemma_enc_list_push(vs.take(i as int), vs[i as int], ns_entry_fn());
            assert(out@ =~= le64(vs.len() as u64) + enc_list(vs.take(i as int + 1), ns_entry_fn()));
        }
        i = i + 1;
    }
    assert(vs.take(vs.len() as int) =~= vs);
    let ghost mid = out@;
    put_u64(&mut out, st.parents.len() as u64);
    let ghost ps = st@.parents;
    let mut j: usize = 0;
    while j < st.parents.len()
        invariant
            ps == blobs_view(st.parents@),
            0 <= j <= ps.len(),
            out@ == mid + le64(ps.len() as u64) + enc_list(ps.take(j as int), blob_fn()),
        decreases ps.len() - j,
    {
        put_blob(&mut out, &st.parents[j]);
        proof {
            assert(ps.take(j as int + 1) =~= ps.take(j as int).push(ps[j as int]));
            lemma_enc_list_push(ps.take(j as int), ps[j as int], blob_fn());
            assert(out@ =~= mid + le64(ps.len() as u64) + enc_list(ps.take(j as int + 1), blob_fn()));
        }
        j = j + 1;
    }
    assert(ps.take(ps.len() as int) =~= ps);
    assert(out@ =~= enc_state(st@));
    out
}

// ---------------------------------------------------------------------------
// Readers: each one accepts exactly the encodings of well-formed records
// ---------------------------------------------------------------------------

pub fn get_key(b: &[u8], pos: usize) -> (r: Option<(SerializedResourceKey, usize)>)
    ensures
        r matches Some((x, p)) ==> prefix_at(b@, pos as int, enc_key(x@)) && p == pos + enc_key(
            x@,
        ).len(),
        forall|k: WireKey| #[trigger]
            prefix_at(b@, pos as int, enc_key(k)) ==> (r matches Some((x, p)) && x@ == k && p
                == pos + enc_key(k).len()),
{
    proof {
        lemma_auto_spec_u32_to_from_le_bytes();
        assert forall|k: WireKey| #[trigger] prefix_at(b@, pos as int, enc_key(k)) implies {
            &&& k is Git ==> prefix_at(b@, pos as int, le32(0)) && prefix_at(b@, pos + 4, enc_bytes(k->Git_0))
            &&& k is Annex ==> prefix_at(b@, pos as int, le32(1)) && prefix_at(b@, pos + 4, enc_bytes(k->Annex_0))
        } by {
            match k {
                WireKey::Git(x) => lemma_prefix_at_concat(b@, pos as int, le32(0), enc_bytes(x)),
                WireKey::Annex(x) => lemma_prefix_at_concat(b@, pos as int, le32(1), enc_bytes(x)),
            }
        }
    }
    let (tag, p) = match get_u32(b, pos) {
        None => return None,
        Some(t) => t,
    };
    if tag > 1 {
        return None;
    }
    let (v, q) = match get_prefixed(b, p) {
        None => return None,
        Some(t) => t,
    };
    let k = if tag == 0 {
        SerializedResourceKey::Git(v)
    } else {
        SerializedResourceKey::Annex(v)
    };
    proof {
        lemma_prefix_at_concat(b@, pos as int, le32(tag), enc_bytes(k@->Git_0));
        lemma_prefix_at_concat(b@, pos as int, le32(tag), enc_bytes(k@->Annex_0));
    }
    Some((k, q))
}

pub fn get_blob(b: &[u8], pos: usize) -> (r: Option<(SerializedBlobRef, usize)>)
    ensures
        r matches Some((x, p)) ==> wf_blob(x@) && prefix_at(b@, pos as int, enc_blob(x@)) && p
            == pos + enc_blob(x@).len(),
        forall|v: WireBlob|
            wf_blob(v) && #[trigger] prefix_at(b@, pos as int, enc_blob(v)) ==> (r matches Some(
                (x, p),
            ) && x@ == v && p == pos + enc_blob(v).len()),
{
    proof {
        assert forall|v: WireBlob| #[trigger] prefix_at(b@, pos as int, enc_blob(v)) implies
            prefix_at(b@, pos as int, enc_key(v.key)) && prefix_at(
            b@,
            pos + enc_key(v.key).len(),
            v.hash,
        ) by {
            lemma_prefix_at_concat(b@, pos as int, enc_key(v.key), v.hash);
        }
    }
    let (k, p) = match get_key(b, pos) {
        None => return None,
        Some(t) => t,
    };
    let (h, q) = match get_fixed(b, p, 32) {
        None => return None,
        Some(t) => t,
    };
    let x = SerializedBlobRef { resource_key: k, sha256: h };
    proof {
        lemma_prefix_at_concat(b@, pos as int, enc_key(x@.key), x@.hash);
        assert forall|v: WireBlob|
            wf_blob(v) && #[trigger] prefix_at(b@, pos as int, enc_blob(v)) implies x@ == v by {
            assert(x@.hash =~= v.hash);
        }
    }
    Some((x, q))
}

pub fn get_opt_id(b: &[u8], pos: usize) -> (r: Option<(Option<Vec<u8>>, usize)>)
    ensures
        r matches Some((x, p)) ==> (x matches Some(id) ==> id@.len() == 20) && prefix_at(
            b@,
            pos as int,
            enc_opt_id(opt_bytes_view(x)),
        ) && p == pos + enc_opt_id(opt_bytes_view(x)).len(),
        forall|o: Option<Seq<u8>>|
            (o matches Some(id) ==> id.len() == 20) && #[trigger] prefix_at(
                b@,
                pos as int,
                enc_opt_id(o),
            ) ==> (r matches Some((x, p)) && opt_bytes_view(x) == o && p == pos + enc_opt_id(
                o,
            ).len()),
{
    let (t, p) = match get_fixed(b, pos, 1) {
        None => return None,
        Some(t) => t,
    };
    proof {
        assert forall|o: Option<Seq<u8>>| #[trigger] prefix_at(b@, pos as int, enc_opt_id(o)) implies {
            &&& o is None ==> t@ == seq![0u8]
            &&& o is Some ==> t@ == seq![1u8] && prefix_at(b@, pos + 1, o->Some_0)
        } by {
            if let Some(id) = o {
                lemma_prefix_at_concat(b@, pos as int, seq![1u8], id);
            }
            assert(t@ =~= b@.subrange(pos as int, pos + 1));
        }
    }
    if t[0] == 0 {
        proof {
            assert(enc_opt_id(None) =~= t@);
        }
        Some((None, p))
    } else if t[0] == 1 {
        let (id, q) = match get_fixed(b, p, 20) {
            None => return None,
            Some(x) => x,
        };
        proof {
            assert(t@ =~= seq![1u8]);
            lemma_prefix_at_concat(b@, pos as int, seq![1u8], id@);
            assert forall|o: Option<Seq<u8>>|
                (o matches Some(x) ==> x.len() == 20) && #[trigger] prefix_at(
                    b@,
                    pos as int,
                    enc_opt_id(o),
                ) implies opt_bytes_view(Some(id)) == o by {
                assert(id@ =~= o->Some_0);
            }
        }
        Some((Some(id), q))
    } else {
        return None;
    }
}

pub fn get_ref(b: &[u8], pos: usize) -> (r: Option<(SerializedRef, usize)>)
    ensures
        r matches Some((x, p)) ==> wf_ref(x@) && prefix_at(b@, pos as int, enc_ref(x@)) && p
            == pos + enc_ref(x@).len(),
        forall|v: WireRef|
            wf_ref(v) && #[trigger] prefix_at(b@, pos as int, enc_ref(v)) ==> (r matches Some(
                (x, p),
            ) && x@ == v && p == pos + enc_ref(v).len()),
{
    proof {
        lemma_auto_spec_u32_to_from_le_bytes();
        assert forall|v: WireRef| #[trigger] prefix_at(b@, pos as int, enc_ref(v)) implies {
            &&& v is Direct ==> prefix_at(b@, pos as int, le32(0)) && prefix_at(b@, pos + 4, v->Direct_0)
            &&& v is Symbolic ==> prefix_at(b@, pos as int, le32(1)) && prefix_at(b@, pos + 4, enc_bytes(v->Symbolic_0))
                && prefix_at(b@, pos + 4 + enc_bytes(v->Symbolic_0).len(), enc_opt_id(v->Symbolic_1))
        } by {
            match v {
                WireRef::Direct(id) => lemma_prefix_at_concat(b@, pos as int, le32(0), id),
                WireRef::Symbolic(n, o) => {
                    assert(enc_ref(v) =~= le32(1) + (enc_bytes(n) + enc_opt_id(o)));
                    lemma_prefix_at_concat(b@, pos as int, le32(1), enc_bytes(n) + enc_opt_id(o));
                    lemma_prefix_at_concat(b@, pos + 4, enc_bytes(n), enc_opt_id(o));
                },
            }
        }
    }
    let (tag, p) = match get_u32(b, pos) {
        None => return None,
        Some(t) => t,
    };
    if tag == 0 {
        let (id, q) = match get_fixed(b, p, 20) {
            None => return None,
            Some(t) => t,
        };
        let x = SerializedRef::Direct(id);
        proof {
            lemma_prefix_at_concat(b@, pos as int, le32(0), id@);
            assert forall|v: WireRef|
                wf_ref(v) && #[trigger] prefix_at(b@, pos as int, enc_ref(v)) implies x@ == v by {
                assert(id@ =~= v->Direct_0);
            }
        }
        Some((x, q))
    } else if tag == 1 {
        let (n, q) = match get_prefixed(b, p) {
            None => return None,
            Some(t) => t,
        };
        let (o, e) = match get_opt_id(b, q) {
            None => return None,
            Some(t) => t,
        };
        let x = SerializedRef::Symbolic(n, o);
        proof {
            lemma_prefix_at_concat(b@, p as int, enc_bytes(n@), enc_opt_id(opt_bytes_view(o)));
            lemma_prefix_at_concat(b@, pos as int, le32(1), enc_bytes(n@) + enc_opt_id(opt_bytes_view(o)));
            assert(enc_ref(x@) =~= le32(1) + (enc_bytes(n@) + enc_opt_id(opt_bytes_view(o))));
        }
        Some((x, e))
    } else {
        None
    }
}

pub fn get_opt_pack(b: &[u8], pos: usize) -> (r: Option<(Option<SerializedPackRef>, usize)>)
    ensures
        r matches Some((x, p)) ==> {
            let v = match x {
                Some(q) => Some(q@),
                None => None,
            };
            &&& v matches Some(q) ==> wf_pack(q)
            &&& prefix_at(b@, pos as int, enc_opt_pack(v))
            &&& p == pos + enc_opt_pack(v).len()
        },
        forall|o: Option<WirePack>|
            (o matches Some(q) ==> wf_pack(q)) && #[trigger] prefix_at(b@, pos as int, enc_opt_pack(o))
                ==> (r matches Some((x, p)) && (match x {
                Some(q) => Some(q@),
                None => None,
            }) == o && p == pos + enc_opt_pack(o).len()),
{
    let (t, p) = match get_fixed(b, pos, 1) {
        None => return None,
        Some(t) => t,
    };
    proof {
        assert forall|o: Option<WirePack>| #[trigger] prefix_at(b@, pos as int, enc_opt_pack(o)) implies {
            &&& o is None ==> t@ == seq![0u8]
            &&& o is Some ==> t@ == seq![1u8] && prefix_at(b@, pos + 1, enc_blob(o->Some_0.blob))
                && prefix_at(b@, pos + 1 + enc_blob(o->Some_0.blob).len(), o->Some_0.name)
        } by {
            if let Some(q) = o {
                assert(enc_opt_pack(o) =~= seq![1u8] + (enc_blob(q.blob) + q.name));
                lemma_prefix_at_concat(b@, pos as int, seq![1u8], enc_blob(q.blob) + q.name);
                lemma_prefix_at_concat(b@, pos + 1, enc_blob(q.blob), q.name);
            }
            assert(t@ =~= b@.subrange(pos as int, pos + 1));
        }
    }
    if t[0] == 0 {
        proof {
            assert(enc_opt_pack(None) =~= t@);
        }
        Some((None, p))
    } else if t[0] == 1 {
        let (blob, q) = match get_blob(b, p) {
            None => return None,
            Some(x) => x,
        };
        let (name, e) = match get_fixed(b, q, 20) {
            None => return None,
            Some(x) => x,
        };
        let pack = SerializedPackRef { blob_ref: blob, random_name: name };
        proof {
            assert(t@ =~= seq![1u8]);
            lemma_prefix_at_concat(b@, p as int, enc_blob(pack@.blob), pack@.name);
            lemma_prefix_at_concat(b@, pos as int, seq![1u8], enc_pack(pack@));
            assert(enc_opt_pack(Some(pack@)) =~= seq![1u8] + enc_pack(pack@));
            assert forall|o: Option<WirePack>|
                (o matches Some(x) ==> wf_pack(x)) && #[trigger] prefix_at(
                    b@,
                    pos as int,
                    enc_opt_pack(o),
                ) implies Some(pack@) == o by {
                assert(name@ =~= o->Some_0.name);
            }
        }
        Some((Some(pack), e))
    } else {
        None
    }
}

pub open spec fn wf_ref_entries(v: Seq<(Seq<u8>, WireRef)>) -> bool {
    sorted_keys(v) && forall|i: int| 0 <= i < v.len() ==> wf_ref(#[trigger] v[i].1)
}

/// Reads `n` ref entries starting at `pos`.
pub fn get_ref_entries(b: &[u8], pos: usize, n: u64) -> (r: Option<(Vec<(Vec<u8>, SerializedRef)>, usize)>)
    requires
        pos <= b@.len(),
    ensures
        r matches Some((x, p)) ==> {
            &&& ref_entries_view(x@).len() == n
            &&& wf_ref_entries(ref_entries_view(x@))
            &&& prefix_at(b@, pos as int, enc_list(ref_entries_view(x@), ref_entry_fn()))
            &&& p == pos + enc_list(ref_entries_view(x@), ref_entry_fn()).len()
        },
        forall|v: Seq<(Seq<u8>, WireRef)>|
            v.len() == n && wf_ref_entries(v) && #[trigger] prefix_at(
                b@,
                pos as int,
                enc_list(v, ref_entry_fn()),
            ) ==> (r matches Some((x, p)) && ref_entries_view(x@) == v && p == pos + enc_list(
                v,
                ref_entry_fn(),
            ).len()),
{
    let mut out: Vec<(Vec<u8>, SerializedRef)> = Vec::new();
    let mut p: usize = pos;
    let mut i: u64 = 0;
    assert(enc_list(ref_entries_view(out@), ref_entry_fn()) =~= Seq::empty());
    assert(b@.subrange(pos as int, pos as int) =~= Seq::<u8>::empty());
    proof {
        assert forall|v: Seq<(Seq<u8>, WireRef)>|
            v.len() == n && wf_ref_entries(v) && #[trigger] prefix_at(
                b@,
                pos as int,
                enc_list(v, ref_entry_fn()),
            ) implies ref_entries_view(out@) == v.take(0) && prefix_at(
            b@,
            p as int,
            enc_list(v.skip(0), ref_entry_fn()),
        ) by {
            assert(v.skip(0) =~= v);
            assert(ref_entries_view(out@) =~= v.take(0));
        }
    }
    while i < n
        invariant
            pos <= p <= b@.len(),
            out@.len() == i,
            i <= n,
            wf_ref_entries(ref_entries_view(out@)),
            prefix_at(b@, pos as int, enc_list(ref_entries_view(out@), ref_entry_fn())),
            p == pos + enc_list(ref_entries_view(out@), ref_entry_fn()).len(),
            forall|v: Seq<(Seq<u8>, WireRef)>|
                v.len() == n && wf_ref_entries(v) && #[trigger] prefix_at(
                    b@,
                    pos as int,
                    enc_list(v, ref_entry_fn()),
                ) ==> ref_entries_view(out@) == v.take(i as int) && prefix_at(
                    b@,
                    p as int,
                    enc_list(v.skip(i as int), ref_entry_fn()),
                ),
        decreases n - i,
    {
        let ghost old_out = ref_entries_view(out@);
        proof {
            assert forall|v: Seq<(Seq<u8>, WireRef)>|
                v.len() == n && wf_ref_entries(v) && #[trigger] prefix_at(
                    b@,
                    pos as int,
                    enc_list(v, ref_entry_fn()),
                ) implies prefix_at(b@, p as int, enc_bytes(v[i as int].0)) && prefix_at(
                b@,
                p + enc_bytes(v[i as int].0).len(),
                enc_ref(v[i as int].1),
            ) && prefix_at(
                b@,
                p + enc_ref_entry(v[i as int]).len(),
                enc_list(v.skip(i + 1), ref_entry_fn()),
            ) by {
                lemma_enc_list_skip(v, i as int, ref_entry_fn());
                lemma_prefix_at_concat(
                    b@,
                    p as int,
                    enc_ref_entry(v[i as int]),
                    enc_list(v.skip(i + 1), ref_entry_fn()),
                );
                lemma_prefix_at_concat(b@, p as int, enc_bytes(v[i as int].0), enc_ref(v[i as int].1));
            }
        }
        let (name, q) = match get_prefixed(b, p) {
            None => return None,
            Some(t) => t,
        };
        let (rf, e) = match get_ref(b, q) {
            None => return None,
            Some(t) => t,
        };
        if i > 0 {
            let last = out.len() - 1;
            if !crate::bytes::bytes_lt(out[last].0.as_slice(), name.as_slice()) {
                proof {
                    assert forall|v: Seq<(Seq<u8>, WireRef)>|
                        v.len() == n && wf_ref_entries(v) && #[trigger] prefix_at(
                            b@,
                            pos as int,
                            enc_list(v, ref_entry_fn()),
                        ) implies false by {
                        assert(v.take(i as int)[i - 1] == old_out[i - 1]);
                        let k = i - 1;
                        assert(lex_lt(v[k].0, v[k + 1].0));
                    }
                }
                return None;
            }
        }
        let ghost entry = (name@, rf@);
        out.push((name, rf));
        proof {
            assert(ref_entries_view(out@) =~= old_out.push(entry));
            lemma_prefix_at_concat(b@, p as int, enc_bytes(entry.0), enc_ref(entry.1));
            lemma_enc_list_push(old_out, entry, ref_entry_fn());
            lemma_prefix_at_concat(b@, pos as int, enc_list(old_out, ref_entry_fn()), enc_ref_entry(entry));
            assert forall|j: int| 0 <= j < ref_entries_view(out@).len() - 1 implies #[trigger] lex_lt(
                ref_entries_view(out@)[j].0,
                ref_entries_view(out@)[j + 1].0,
            ) by {
                if j < i - 1 {
                    assert(lex_lt(old_out[j].0, old_out[j + 1].0));
                }
            }
            assert forall|v: Seq<(Seq<u8>, WireRef)>|
                v.len() == n && wf_ref_entries(v) && #[trigger] prefix_at(
                    b@,
                    pos as int,
                    enc_list(v, ref_entry_fn()),
                ) implies ref_entries_view(out@) == v.take(i + 1) && prefix_at(
                b@,
                e as int,
                enc_list(v.skip(i + 1), ref_entry_fn()),
            ) by {
                assert(v.take(i + 1) =~= v.take(i as int).push(v[i as int]));
            }
        }
        p = e;
        i = i + 1;
    }
    proof {
        assert forall|v: Seq<(Seq<u8>, WireRef)>|
            v.len() == n && wf_ref_entries(v) && #[trigger] prefix_at(
                b@,
                pos as int,
                enc_list(v, ref_entry_fn()),
            ) implies ref_entries_view(out@) == v by {
            assert(v.take(n as int) =~= v);
        }
    }
    Some((out, p))
}

pub open spec fn wf_ns_entries(v: Seq<(Seq<u8>, WireBlob)>) -> bool {
    sorted_keys(v) && forall|i: int| 0 <= i < v.len() ==> wf_blob(#[trigger] v[i].1)
}

/// Reads `n` namespace entries starting at `pos`.
pub fn get_ns_entries(b: &[u8], pos: usize, n: u64) -> (r: Option<(Vec<(Vec<u8>, SerializedBlobRef)>, usize)>)
    requires
        pos <= b@.len(),
    ensures
        r matches Some((x, p)) ==> {
            &&& ns_entries_view(x@).len() == n
            &&& wf_ns_entries(ns_entries_view(x@))
            &&& prefix_at(b@, pos as int, enc_list(ns_entries_view(x@), ns_entry_fn()))
            &&& p == pos + enc_list(ns_entries_view(x@), ns_entry_fn()).len()
        },
        forall|v: Seq<(Seq<u8>, WireBlob)>|
            v.len() == n && wf_ns_entries(v) && #[trigger] prefix_at(
                b@,
                pos as int,
                enc_list(v, ns_entry_fn()),
            ) ==> (r matches Some((x, p)) && ns_entries_view(x@) == v && p == pos + enc_list(
                v,
                ns_entry_fn(),
            ).len()),
{
    let mut out: Vec<(Vec<u8>, SerializedBlobRef)> = Vec::new();
    let mut p: usize = pos;
    let mut i: u64 = 0;
    assert(enc_list(ns_entries_view(out@), ns_entry_fn()) =~= Seq::empty());
    assert(b@.subrange(pos as int, pos as int) =~= Seq::<u8>::empty());
    proof {
        assert forall|v: Seq<(Seq<u8>, WireBlob)>|
            v.len() == n && wf_ns_entries(v) && #[trigger] prefix_at(
                b@,
                pos as int,
                enc_list(v, ns_entry_fn()),
            ) implies ns_entries_view(out@) == v.take(0) && prefix_at(
            b@,
            p as int,
            enc_list(v.skip(0), ns_entry_fn()),
        ) by {
            assert(v.skip(0) =~= v);
            assert(ns_entries_view(out@) =~= v.take(0));
        }
    }
    while i < n
        invariant
            pos <= p <= b@.len(),
            out@.len() == i,
            i <= n,
            wf_ns_entries(ns_entries_view(out@)),
            prefix_at(b@, pos as int, enc_list(ns_entries_view(out@), ns_entry_fn())),
            p == pos + enc_list(ns_entries_view(out@), ns_entry_fn()).len(),
            forall|v: Seq<(Seq<u8>, WireBlob)>|
                v.len() == n && wf_ns_entries(v) && #[trigger] prefix_at(
                    b@,
                    pos as int,
                    enc_list(v, ns_entry_fn()),
                ) ==> ns_entries_view(out@) == v.take(i as int) && prefix_at(
                    b@,
                    p as int,
                    enc_list(v.skip(i as int), ns_entry_fn()),
                ),
        decreases n - i,
    {
        let ghost old_out = ns_entries_view(out@);
        proof {
            assert forall|v: Seq<(Seq<u8>, WireBlob)>|
                v.len() == n && wf_ns_entries(v) && #[trigger] prefix_at(
                    b@,
                    pos as int,
                    enc_list(v, ns_entry_fn()),
                ) implies prefix_at(b@, p as int, enc_bytes(v[i as int].0)) && prefix_at(
                b@,
                p + enc_bytes(v[i as int].0).len(),
                enc_blob(v[i as int].1),
            ) && prefix_at(
                b@,
                p + enc_ns_entry(v[i as int]).len(),
                enc_list(v.skip(i + 1), ns_entry_fn()),
            ) by {
                lemma_enc_list_skip(v, i as int, ns_entry_fn());
                lemma_prefix_at_concat(
                    b@,
                    p as int,
                    enc_ns_entry(v[i as int]),
                    enc_list(v.skip(i + 1), ns_entry_fn()),
                );
                lemma_prefix_at_concat(b@, p as int, enc_bytes(v[i as int].0), enc_blob(v[i as int].1));
            }
        }
        let (name, q) = match get_prefixed(b, p) {
            None => return None,
            Some(t) => t,
        };
        let (rf, e) = match get_blob(b, q) {
            None => return None,
            Some(t) => t,
        };
        if i > 0 {
            let last = out.len() - 1;
            if !crate::bytes::bytes_lt(out[last].0.as_slice(), name.as_slice()) {
                proof {
                    assert forall|v: Seq<(Seq<u8>, WireBlob)>|
                        v.len() == n && wf_ns_entries(v) && #[trigger] prefix_at(
                            b@,
                            pos as int,
                            enc_list(v, ns_entry_fn()),
                        ) implies false by {
                        assert(v.take(i as int)[i - 1] == old_out[i - 1]);
                        let k = i - 1;
                        assert(lex_lt(v[k].0, v[k + 1].0));
                    }
                }
                return None;
            }
        }
        let ghost entry = (name@, rf@);
        out.push((name, rf));
        proof {
            assert(ns_entries_view(out@) =~= old_out.push(entry));
            lemma_prefix_at_concat(b@, p as int, enc_bytes(entry.0), enc_blob(entry.1));
            lemma_enc_list_push(old_out, entry, ns_entry_fn());
            lemma_prefix_at_concat(b@, pos as int, enc_list(old_out, ns_entry_fn()), enc_ns_entry(entry));
            assert forall|j: int| 0 <= j < ns_entries_view(out@).len() - 1 implies #[trigger] lex_lt(
                ns_entries_view(out@)[j].0,
                ns_entries_view(out@)[j + 1].0,
            ) by {
                if j < i - 1 {
                    assert(lex_lt(old_out[j].0, old_out[j + 1].0));
                }
            }
            assert forall|v: Seq<(Seq<u8>, WireBlob)>|
                v.len() == n && wf_ns_entries(v) && #[trigger] prefix_at(
                    b@,
                    pos as int,
                    enc_list(v, ns_entry_fn()),
                ) implies ns_entries_view(out@) == v.take(i + 1) && prefix_at(
                b@,
                e as int,
                enc_list(v.skip(i + 1), ns_entry_fn()),
            ) by {
                assert(v.take(i + 1) =~= v.take(i as int).push(v[i as int]));
            }
        }
        p = e;
        i = i + 1;
    }
    proof {
        assert forall|v: Seq<(Seq<u8>, WireBlob)>|
            v.len() == n && wf_ns_entries(v) && #[trigger] prefix_at(
                b@,
                pos as int,
                enc_list(v, ns_entry_fn()),
            ) implies ns_entries_view(out@) == v by {
            assert(v.take(n as int) =~= v);
        }
    }
    Some((out, p))
}

/// Reads `n` parent references; they must ascend strictly by their bytes.
pub fn get_parents(b: &[u8], pos: usize, n: u64) -> (r: Option<(Vec<SerializedBlobRef>, usize)>)
    requires
        pos <= b@.len(),
    ensures
        r matches Some((x, p)) ==> {
            &&& blobs_view(x@).len() == n
            &&& wf_parents(blobs_view(x@))
            &&& prefix_at(b@, pos as int, enc_list(blobs_view(x@), blob_fn()))
            &&& p == pos + enc_list(blobs_view(x@), blob_fn()).len()
        },
        forall|v: Seq<WireBlob>|
            v.len() == n && wf_parents(v) && #[trigger] prefix_at(
                b@,
                pos as int,
                enc_list(v, blob_fn()),
            ) ==> (r matches Some((x, p)) && blobs_view(x@) == v && p == pos + enc_list(
                v,
                blob_fn(),
            ).len()),
{
    let mut out: Vec<SerializedBlobRef> = Vec::new();
    let mut prev: Vec<u8> = Vec::new();
    let mut p: usize = pos;
    let mut i: u64 = 0;
    assert(enc_list(blobs_view(out@), blob_fn()) =~= Seq::empty());
    assert(b@.subrange(pos as int, pos as int) =~= Seq::<u8>::empty());
    proof {
        assert forall|v: Seq<WireBlob>|
            v.len() == n && wf_parents(v) && #[trigger] prefix_at(
                b@,
                pos as int,
                enc_list(v, blob_fn()),
            ) implies blobs_view(out@) == v.take(0) && prefix_at(
            b@,
            p as int,
            enc_list(v.skip(0), blob_fn()),
        ) by {
            assert(v.skip(0) =~= v);
            assert(blobs_view(out@) =~= v.take(0));
        }
    }
    while i < n
        invariant
            pos <= p <= b@.len(),
            out@.len() == i,
            i <= n,
            i > 0 ==> prev@ == enc_blob(blobs_view(out@)[i - 1]),
            wf_parents(blobs_view(out@)),
            prefix_at(b@, pos as int, enc_list(blobs_view(out@), blob_fn())),
            p == pos + enc_list(blobs_view(out@), blob_fn()).len(),
            forall|v: Seq<WireBlob>|
                v.len() == n && wf_parents(v) && #[trigger] prefix_at(
                    b@,
                    pos as int,
                    enc_list(v, blob_fn()),
                ) ==> blobs_view(out@) == v.take(i as int) && prefix_at(
                    b@,
                    p as int,
                    enc_list(v.skip(i as int), blob_fn()),
                ),
        decreases n - i,
    {
        let ghost old_out = blobs_view(out@);
        proof {
            assert forall|v: Seq<WireBlob>|
                v.len() == n && wf_parents(v) && #[trigger] prefix_at(
                    b@,
                    pos as int,
                    enc_list(v, blob_fn()),
                ) implies prefix_at(b@, p as int, enc_blob(v[i as int])) && prefix_at(
                b@,
                p + enc_blob(v[i as int]).len(),
                enc_list(v.skip(i + 1), blob_fn()),
            ) by {
                lemma_enc_list_skip(v, i as int, blob_fn());
                lemma_prefix_at_concat(
                    b@,
                    p as int,
                    enc_blob(v[i as int]),
                    enc_list(v.skip(i + 1), blob_fn()),
                );
            }
        }
        let (blob, e) = match get_blob(b, p) {
            None => return None,
            Some(t) => t,
        };
        let cur = crate::bytes::copy_range(b, p, e);
        if i > 0 {
            if !crate::bytes::bytes_lt(prev.as_slice(), cur.as_slice()) {
                proof {
                    assert forall|v: Seq<WireBlob>|
                        v.len() == n && wf_parents(v) && #[trigger] prefix_at(
                            b@,
                            pos as int,
                            enc_list(v, blob_fn()),
                        ) implies false by {
                        assert(v.take(i as int)[i - 1] == old_out[i - 1]);
                        let k = i - 1;
                        assert(lex_lt(enc_blob(v[k]), enc_blob(v[k + 1])));
                    }
                }
                return None;
            }
        }
        let ghost entry = blob@;
        out.push(blob);
        prev = cur;
        proof {
            assert(blobs_view(out@) =~= old_out.push(entry));
            lemma_enc_list_push(old_out, entry, blob_fn());
            lemma_prefix_at_concat(b@, pos as int, enc_list(old_out, blob_fn()), enc_blob(entry));
            assert forall|j: int| 0 <= j < blobs_view(out@).len() - 1 implies #[trigger] lex_lt(
                enc_blob(blobs_view(out@)[j]),
                enc_blob(blobs_view(out@)[j + 1]),
            ) by {
                if j < i - 1 {
                    assert(lex_lt(enc_blob(old_out[j]), enc_blob(old_out[j + 1])));
                }
            }
            assert forall|v: Seq<WireBlob>|
                v.len() == n && wf_parents(v) && #[trigger] prefix_at(
                    b@,
                    pos as int,
                    enc_list(v, blob_fn()),
                ) implies blobs_view(out@) == v.take(i + 1) && prefix_at(
                b@,
                e as int,
                enc_list(v.skip(i + 1), blob_fn()),
            ) by {
                assert(v.take(i + 1) =~= v.take(i as int).push(v[i as int]));
            }
        }
        p = e;
        i = i + 1;
    }
    proof {
        assert forall|v: Seq<WireBlob>|
            v.len() == n && wf_parents(v) && #[trigger] prefix_at(
                b@,
                pos as int,
                enc_list(v, blob_fn()),
            ) implies blobs_view(out@) == v by {
            assert(v.take(n as int) =~= v);
        }
    }
    Some((out, p))
}

/// Why a byte string is not the encoding of any well-formed record.
#[derive(Debug, Clone, Copy, PartialEq, Eq)]
pub enum WireError {
    Malformed,
}

/// Decodes a namespace. Exactly the encodings of well-formed namespaces are
/// accepted, so decoding and encoding again gives back the same bytes.
pub fn deserialize_namespace(b: &[u8]) -> (r: Result<SerializedNamespace, WireError>)
    ensures
        r matches Ok(x) ==> wf_namespace(x@) && enc_namespace(x@) == b@,
        forall|v: WireNamespace|
            wf_namespace(v) && #[trigger] enc_namespace(v) == b@ ==> (r matches Ok(x) && x@ == v),
{
    let blen = b.len();
    proof {
        lemma_auto_spec_u64_to_from_le_bytes();
        assert forall|v: WireNamespace| wf_namespace(v) && #[trigger] enc_namespace(v) == b@ implies {
            &&& prefix_at(b@, 0, le64(v.refs.len() as u64))
            &&& prefix_at(b@, 8, enc_list(v.refs, ref_entry_fn()))
            &&& prefix_at(b@, 8int + enc_list(v.refs, ref_entry_fn()).len(), enc_opt_pack(v.pack))
            &&& prefix_at(b@, 8int + enc_list(v.refs, ref_entry_fn()).len() + enc_opt_pack(v.pack).len(), v.name)
            &&& b@.len() == 8 + enc_list(v.refs, ref_entry_fn()).len() + enc_opt_pack(v.pack).len() + 20
            &&& v.refs.len() <= blen
            &&& wf_ref_entries(v.refs)
        } by {
            lemma_auto_spec_u64_to_from_le_bytes();
            lemma_enc_list_len(v.refs, ref_entry_fn());
            let a = le64(v.refs.len() as u64);
            let l = enc_list(v.refs, ref_entry_fn());
            let o = enc_opt_pack(v.pack);
            assert(b@.subrange(0, b@.len() as int) =~= b@);
            lemma_prefix_at_concat(b@, 0, a + l + o, v.name);
            lemma_prefix_at_concat(b@, 0, a + l, o);
            lemma_prefix_at_concat(b@, 0, a, l);
        }
    }
    let (n, p) = match get_u64(b, 0) {
        None => return Err(WireError::Malformed),
        Some(t) => t,
    };
    let (refs, q) = match get_ref_entries(b, p, n) {
        None => return Err(WireError::Malformed),
        Some(t) => t,
    };
    let (pack, e) = match get_opt_pack(b, q) {
        None => return Err(WireError::Malformed),
        Some(t) => t,
    };
    let (name, f) = match get_fixed(b, e, 20) {
        None => return Err(WireError::Malformed),
        Some(t) => t,
    };
    if f != b.len() {
        return Err(WireError::Malformed);
    }
    let x = SerializedNamespace { refs, pack, random_name: name };
    proof {
        let a = le64(n);
        let l = enc_list(x@.refs, ref_entry_fn());
        let o = enc_opt_pack(x@.pack);
        lemma_prefix_at_concat(b@, 0, a, l);
        lemma_prefix_at_concat(b@, 0, a + l, o);
        lemma_prefix_at_concat(b@, 0, a + l + o, x@.name);
        assert(b@.subrange(0, b@.len() as int) =~= b@);
        assert(enc_namespace(x@) =~= a + l + o + x@.name);
        assert forall|v: WireNamespace|
            wf_namespace(v) && #[trigger] enc_namespace(v) == b@ implies x@ == v by {
            assert(x@.name =~= v.name);
        }
    }
    Ok(x)
}

/// Decodes a state. Exactly the encodings of well-formed states are accepted,
/// so decoding and encoding again gives back the same bytes.
pub fn deserialize_state(b: &[u8]) -> (r: Result<SerializedState, WireError>)
    ensures
        r matches Ok(x) ==> wf_state(x@) && enc_state(x@) == b@,
        forall|v: WireState|
            wf_state(v) && #[trigger] enc_state(v) == b@ ==> (r matches Ok(x) && x@ == v),
{
    let blen = b.len();
    proof {
        lemma_auto_spec_u64_to_from_le_bytes();
        assert forall|v: WireState| wf_state(v) && #[trigger] enc_state(v) == b@ implies {
            &&& prefix_at(b@, 0, le64(v.namespaces.len() as u64))
            &&& prefix_at(b@, 8, enc_list(v.namespaces, ns_entry_fn()))
            &&& prefix_at(b@, 8int + enc_list(v.namespaces, ns_entry_fn()).len(), le64(v.parents.len() as u64))
            &&& prefix_at(b@, 16int + enc_list(v.namespaces, ns_entry_fn()).len(), enc_list(v.parents, blob_fn()))
            &&& b@.len() == 16 + enc_list(v.namespaces, ns_entry_fn()).len() + enc_list(v.parents, blob_fn()).len()
            &&& wf_ns_entries(v.namespaces)
            &&& wf_parents(v.parents)
            &&& v.namespaces.len() <= blen
            &&& v.parents.len() <= blen
        } by {
            lemma_auto_spec_u64_to_from_le_bytes();
            lemma_enc_list_len(v.namespaces, ns_entry_fn());
            lemma_enc_list_len(v.parents, blob_fn());
            let a = le64(v.namespaces.len() as u64);
            let l = enc_list(v.namespaces, ns_entry_fn());
            let c = le64(v.parents.len() as u64);
            let m = enc_list(v.parents, blob_fn());
            assert(b@.subrange(0, b@.len() as int) =~= b@);
            lemma_prefix_at_concat(b@, 0, a + l + c, m);
            lemma_prefix_at_concat(b@, 0, a + l, c);
            lemma_prefix_at_concat(b@, 0, a, l);
        }
    }
    let (n, p) = match get_u64(b, 0) {
        None => return Err(WireError::Malformed),
        Some(t) => t,
    };
    let (namespaces, q) = match get_ns_entries(b, p, n) {
        None => return Err(WireError::Malformed),
        Some(t) => t,
    };
    let (m, e) = match get_u64(b, q) {
        None => return Err(WireError::Malformed),
        Some(t) => t,
    };
    let (parents, f) = match get_parents(b, e, m) {
        None => return Err(WireError::Malformed),
        Some(t) => t,
    };
    if f != b.len() {
        return Err(WireError::Malformed);
    }
    let x = SerializedState { namespaces, parents };
    proof {
        let a = le64(n);
        let l = enc_list(x@.namespaces, ns_entry_fn());
        let c = le64(m);
        let k = enc_list(x@.parents, blob_fn());
        lemma_prefix_at_concat(b@, 0, a, l);
        lemma_prefix_at_concat(b@, 0, a + l, c);
        lemma_prefix_at_concat(b@, 0, a + l + c, k);
        assert(b@.subrange(0, b@.len() as int) =~= b@);
        assert(enc_state(x@) =~= a + l + c + k);
    }
    Ok(x)
}

} // verus!
