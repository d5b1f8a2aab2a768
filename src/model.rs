//! The in-memory records: blob references, refs, namespaces and states.
//!
//! Each record has the same mathematical value as its serialized form (see
//! `wire`), except that a backend resource key holds its object ids one by one.
use vstd::prelude::*;

use crate::bytes::{bytes_eq, copy_bytes, copy_range, lex_lt};
use crate::codec::{hex_of, to_hex};
use vstd::utf8::encode_utf8;
use crate::table::{ascending, lookup};
use crate::wire::{
    blobs_view, ns_entries_view, opt_bytes_view, put_bytes, ref_entries_view, wf_blob,
    wf_namespace, wf_pack, wf_state, SerializedBlobRef, SerializedNamespace,
    SerializedPackRef, SerializedRef, SerializedResourceKey, SerializedState, WireBlob, WireKey,
    WireNamespace, WirePack, WireRef, WireState,
};

verus! {

broadcast use vstd::seq::group_seq_axioms;

/// The concatenation of a list of byte strings.
pub open spec fn flatten(s: Seq<Seq<u8>>) -> Seq<u8>
    decreases s.len(),
{
    if s.len() == 0 {
        Seq::empty()
    } else {
        flatten(s.drop_last()) + s.last()
    }
}

pub open spec fn ids_view(v: Seq<Vec<u8>>) -> Seq<Seq<u8>> {
    v.map_values(|x: Vec<u8>| x@)
}

/// Every id is a 20-byte backend object id.
pub open spec fn all_ids(v: Seq<Seq<u8>>) -> bool {
    forall|i: int| 0 <= i < v.len() ==> (#[trigger] v[i]).len() == 20
}

/// Where the content of a blob lives.
#[derive(Clone, Debug, PartialEq, Eq)]
pub enum ResourceKey {
    /// The backend blobs whose concatenation is the stored content.
    Git(Vec<Vec<u8>>),
    /// A key into an external large-object store; not supported by the codec.
    Annex(Vec<u8>),
}

impl View for ResourceKey {
    type V = WireKey;

    open spec fn view(&self) -> WireKey {
        match self {
            ResourceKey::Git(ids) => WireKey::Git(flatten(ids_view(ids@))),
            ResourceKey::Annex(k) => WireKey::Annex(k@),
        }
    }
}

impl ResourceKey {
    pub open spec fn wf(&self) -> bool {
        match self {
            ResourceKey::Git(ids) => all_ids(ids_view(ids@)),
            ResourceKey::Annex(_) => true,
        }
    }
}

/// A blob: where it lives and the SHA-256 of its logical content.
#[derive(Clone, Debug, PartialEq, Eq)]
pub struct BlobRef {
    pub resource_key: ResourceKey,
    pub sha256: Vec<u8>,
}

impl View for BlobRef {
    type V = WireBlob;

    open spec fn view(&self) -> WireBlob {
        WireBlob { key: self.resource_key@, hash: self.sha256@ }
    }
}

impl BlobRef {
    pub open spec fn wf(&self) -> bool {
        self.resource_key.wf() && wf_blob(self@)
    }

    /// The backend object ids of the blob; none for an external key.
    pub fn oids(&self) -> (r: Vec<Vec<u8>>)
        ensures
            self.resource_key matches ResourceKey::Git(ids) ==> ids_view(r@) == ids_view(ids@),
            self.resource_key is Annex ==> r@.len() == 0,
    {
        match &self.resource_key {
            ResourceKey::Git(ids) => copy_ids(ids),
            ResourceKey::Annex(_) => Vec::new(),
        }
    }
}

/// A pack of new objects, stored under a fresh random 20-byte name.
#[derive(Clone, Debug, PartialEq, Eq)]
pub struct PackRef {
    pub blob_ref: BlobRef,
    pub random_name: Vec<u8>,
}

impl View for PackRef {
    type V = WirePack;

    open spec fn view(&self) -> WirePack {
        WirePack { blob: self.blob_ref@, name: self.random_name@ }
    }
}

/// A blob that holds a serialized state.
#[derive(Clone, Debug, PartialEq, Eq)]
pub struct StateRef(pub BlobRef);

/// A blob that holds a serialized namespace.
#[derive(Clone, Debug, PartialEq, Eq)]
pub struct NamespaceRef(pub BlobRef);

/// The value of a ref as captured when it was observed.
#[derive(Clone, Debug, PartialEq, Eq)]
pub enum Ref {
    Direct(Vec<u8>),
    /// The symbolic target, and the object id it resolved to at the time.
    Symbolic(Vec<u8>, Option<Vec<u8>>),
}

impl View for Ref {
    type V = WireRef;

    open spec fn view(&self) -> WireRef {
        match self {
            Ref::Direct(id) => WireRef::Direct(id@),
            Ref::Symbolic(n, id) => WireRef::Symbolic(n@, opt_bytes_view(*id)),
        }
    }
}

pub fn copy_ids(ids: &Vec<Vec<u8>>) -> (r: Vec<Vec<u8>>)
    ensures
        ids_view(r@) == ids_view(ids@),
{
    let mut r: Vec<Vec<u8>> = Vec::new();
    let mut i: usize = 0;
    while i < ids.len()
        invariant
            0 <= i <= ids@.len(),
            ids_view(r@) == ids_view(ids@).take(i as int),
        decreases ids@.len() - i,
    {
        let c = copy_bytes(ids[i].as_slice());
        let ghost prev = r@;
        r.push(c);
        assert(ids_view(r@) =~= ids_view(prev).push(ids@[i as int]@));
        assert(ids_view(ids@).take(i as int + 1) =~= ids_view(ids@).take(i as int).push(
            ids@[i as int]@,
        ));
        i = i + 1;
    }
    assert(ids_view(ids@).take(ids@.len() as int) =~= ids_view(ids@));
    r
}

pub fn copy_opt_id(o: &Option<Vec<u8>>) -> (r: Option<Vec<u8>>)
    ensures
        opt_bytes_view(r) == opt_bytes_view(*o),
{
    match o {
        Some(x) => Some(copy_bytes(x.as_slice())),
        None => None,
    }
}

impl ResourceKey {
    pub fn copy(&self) -> (r: ResourceKey)
        ensures
            r@ == self@,
            r.wf() == self.wf(),
            self matches ResourceKey::Git(a) ==> r matches ResourceKey::Git(b) && ids_view(b@)
                == ids_view(a@),
    {
        match self {
            ResourceKey::Git(ids) => ResourceKey::Git(copy_ids(ids)),
            ResourceKey::Annex(k) => ResourceKey::Annex(copy_bytes(k.as_slice())),
        }
    }
}

impl BlobRef {
    pub fn copy(&self) -> (r: BlobRef)
        ensures
            r@ == self@,
            r.wf() == self.wf(),
    {
        BlobRef { resource_key: self.resource_key.copy(), sha256: copy_bytes(self.sha256.as_slice()) }
    }
}

impl PackRef {
    pub open spec fn wf(&self) -> bool {
        self.blob_ref.wf() && wf_pack(self@)
    }

    pub fn copy(&self) -> (r: PackRef)
        ensures
            r@ == self@,
            r.wf() == self.wf(),
    {
        PackRef { blob_ref: self.blob_ref.copy(), random_name: copy_bytes(self.random_name.as_slice()) }
    }
}

impl PackRef {
    /// A pack reference for a freshly encoded pack, under a fresh random name.
    pub fn new(blob_ref: BlobRef) -> (r: PackRef)
        ensures
            r.blob_ref == blob_ref,
            r.random_name@.len() == 20,
    {
        PackRef { blob_ref, random_name: random_name() }
    }
}

/// Relies on rand's `thread_rng`: twenty bytes drawn afresh on each call.
#[verifier::external_body]
pub(crate) fn random_name() -> (r: Vec<u8>)
    ensures
        r@.len() == 20,
{
    let name: [u8; 20] = rand::Rng::gen(&mut rand::thread_rng());
    name.to_vec()
}

impl StateRef {
    pub fn copy(&self) -> (r: StateRef)
        ensures
            r.0@ == self.0@,
            r.0.wf() == self.0.wf(),
    {
        StateRef(self.0.copy())
    }
}

impl NamespaceRef {
    pub fn copy(&self) -> (r: NamespaceRef)
        ensures
            r.0@ == self.0@,
            r.0.wf() == self.0.wf(),
    {
        NamespaceRef(self.0.copy())
    }
}

/// Two refs name the same thing: equal ids, or equal symbolic targets (the
/// captured ids of symbolic refs are not compared).
pub open spec fn shallow_eq(a: WireRef, b: WireRef) -> bool {
    match (a, b) {
        (WireRef::Direct(x), WireRef::Direct(y)) => x == y,
        (WireRef::Symbolic(x, _), WireRef::Symbolic(y, _)) => x == y,
        _ => false,
    }
}

/// The object id a ref pointed to when it was captured, if any.
pub open spec fn oid_at(r: WireRef) -> Option<Seq<u8>> {
    match r {
        WireRef::Direct(id) => Some(id),
        WireRef::Symbolic(_, id) => id,
    }
}

impl Ref {
    pub fn copy(&self) -> (r: Ref)
        ensures
            r@ == self@,
    {
        match self {
            Ref::Direct(id) => Ref::Direct(copy_bytes(id.as_slice())),
            Ref::Symbolic(n, id) => Ref::Symbolic(copy_bytes(n.as_slice()), copy_opt_id(id)),
        }
    }

    pub fn shallow_equal(a: &Ref, b: &Ref) -> (r: bool)
        ensures
            r == shallow_eq(a@, b@),
    {
        match (a, b) {
            (Ref::Direct(x), Ref::Direct(y)) => bytes_eq(x.as_slice(), y.as_slice()),
            (Ref::Symbolic(x, _), Ref::Symbolic(y, _)) => bytes_eq(x.as_slice(), y.as_slice()),
            _ => false,
        }
    }

    /// What `list` reports as the ref's target: the hexadecimal id of a
    /// direct ref, the target name of a symbolic one.
    pub fn to_git_wire_string(&self) -> (r: Vec<u8>)
        ensures
            self matches Ref::Direct(id) ==> r@ == encode_utf8(hex_of(id@)),
            self matches Ref::Symbolic(n, _) ==> r@ == n@,
    {
        match self {
            Ref::Direct(id) => {
                let h = to_hex(id.as_slice());
                copy_bytes(h.as_str().as_bytes())
            },
            Ref::Symbolic(n, _) => copy_bytes(n.as_slice()),
        }
    }

    pub fn oid_at_time(&self) -> (r: Option<Vec<u8>>)
        ensures
            opt_bytes_view(r) == oid_at(self@),
    {
        match self {
            Ref::Direct(id) => Some(copy_bytes(id.as_slice())),
            Ref::Symbolic(_, id) => copy_opt_id(id),
        }
    }
}

/// Why a serialized record has no in-memory form.
#[derive(Debug, Clone, Copy, PartialEq, Eq)]
pub enum ConvertError {
    /// A flat list of object ids whose length is not a multiple of 20.
    OidLength,
}

impl ResourceKey {
    /// The serialized form: the object ids concatenated.
    pub fn to_serialized(&self) -> (r: SerializedResourceKey)
        ensures
            r@ == self@,
    {
        match self {
            ResourceKey::Git(ids) => {
                let mut out: Vec<u8> = Vec::new();
                let mut i: usize = 0;
                while i < ids.len()
                    invariant
                        0 <= i <= ids@.len(),
                        out@ == flatten(ids_view(ids@).take(i as int)),
                    decreases ids@.len() - i,
                {
                    put_bytes(&mut out, ids[i].as_slice());
                    proof {
                        let t = ids_view(ids@).take(i as int + 1);
                        assert(t.drop_last() =~= ids_view(ids@).take(i as int));
                    }
                    i = i + 1;
                }
                assert(ids_view(ids@).take(ids@.len() as int) =~= ids_view(ids@));
                SerializedResourceKey::Git(out)
            },
            ResourceKey::Annex(k) => SerializedResourceKey::Annex(copy_bytes(k.as_slice())),
        }
    }

    /// The in-memory form: the flat array cut into 20-byte object ids.
    pub fn from_serialized(s: &SerializedResourceKey) -> (r: Result<ResourceKey, ConvertError>)
        ensures
            r matches Ok(k) ==> k@ == s@ && k.wf(),
            r is Err <==> (s matches SerializedResourceKey::Git(b) && b@.len() % 20 != 0),
    {
        match s {
            SerializedResourceKey::Git(b) => {
                if b.len() % 20 != 0 {
                    return Err(ConvertError::OidLength);
                }
                let mut ids: Vec<Vec<u8>> = Vec::new();
                let mut pos: usize = 0;
                assert(b@.subrange(0, 0) =~= Seq::<u8>::empty());
                while pos < b.len()
                    invariant
                        b@.len() % 20 == 0,
                        pos % 20 == 0,
                        0 <= pos <= b@.len(),
                        flatten(ids_view(ids@)) == b@.subrange(0, pos as int),
                        all_ids(ids_view(ids@)),
                    decreases b@.len() - pos,
                {
                    assert(pos + 20 <= b@.len());
                    let id = copy_range(b.as_slice(), pos, pos + 20);
                    let ghost prev = ids@;
                    ids.push(id);
                    proof {
                        assert(ids_view(ids@).drop_last() =~= ids_view(prev));
                        assert(ids_view(ids@).last() == id@);
                        assert(b@.subrange(0, pos + 20) =~= b@.subrange(0, pos as int) + b@.subrange(
                            pos as int,
                            pos + 20,
                        ));
                        assert forall|j: int| 0 <= j < ids_view(ids@).len() implies (#[trigger] ids_view(
                            ids@,
                        )[j]).len() == 20 by {
                            if j < prev.len() {
                                assert(ids_view(ids@)[j] == ids_view(prev)[j]);
                            }
                        }
                    }
                    pos = pos + 20;
                }
                assert(b@.subrange(0, b@.len() as int) =~= b@);
                Ok(ResourceKey::Git(ids))
            },
            SerializedResourceKey::Annex(k) => Ok(ResourceKey::Annex(copy_bytes(k.as_slice()))),
        }
    }
}

impl BlobRef {
    pub fn to_serialized(&self) -> (r: SerializedBlobRef)
        ensures
            r@ == self@,
    {
        SerializedBlobRef {
            resource_key: self.resource_key.to_serialized(),
            sha256: copy_bytes(self.sha256.as_slice()),
        }
    }

    pub fn from_serialized(s: &SerializedBlobRef) -> (r: Result<BlobRef, ConvertError>)
        ensures
            r matches Ok(x) ==> x@ == s@ && x.resource_key.wf(),
            r is Err <==> (s.resource_key matches SerializedResourceKey::Git(b) && b@.len() % 20 != 0),
    {
        let resource_key = ResourceKey::from_serialized(&s.resource_key)?;
        Ok(BlobRef { resource_key, sha256: copy_bytes(s.sha256.as_slice()) })
    }
}

impl PackRef {
    pub fn to_serialized(&self) -> (r: SerializedPackRef)
        ensures
            r@ == self@,
    {
        SerializedPackRef {
            blob_ref: self.blob_ref.to_serialized(),
            random_name: copy_bytes(self.random_name.as_slice()),
        }
    }

    pub fn from_serialized(s: &SerializedPackRef) -> (r: Result<PackRef, ConvertError>)
        ensures
            r matches Ok(x) ==> x@ == s@ && x.blob_ref.resource_key.wf(),
            r is Err <==> (s.blob_ref.resource_key matches SerializedResourceKey::Git(b) && b@.len() % 20 != 0),
    {
        let blob_ref = BlobRef::from_serialized(&s.blob_ref)?;
        Ok(PackRef { blob_ref, random_name: copy_bytes(s.random_name.as_slice()) })
    }
}

impl Ref {
    pub fn to_serialized(&self) -> (r: SerializedRef)
        ensures
            r@ == self@,
    {
        match self {
            Ref::Direct(id) => SerializedRef::Direct(copy_bytes(id.as_slice())),
            Ref::Symbolic(n, id) => SerializedRef::Symbolic(copy_bytes(n.as_slice()), copy_opt_id(id)),
        }
    }

    pub fn from_serialized(s: &SerializedRef) -> (r: Ref)
        ensures
            r@ == s@,
    {
        match s {
            SerializedRef::Direct(id) => Ref::Direct(copy_bytes(id.as_slice())),
            SerializedRef::Symbolic(n, id) => Ref::Symbolic(copy_bytes(n.as_slice()), copy_opt_id(id)),
        }
    }
}

/// An independent logical repository on the backend branch.
#[derive(Clone, Debug, PartialEq, Eq)]
pub struct Namespace {
    /// Ref name to value, names strictly ascending.
    pub refs: Vec<(Vec<u8>, Ref)>,
    /// The pack written by the latest push into this namespace.
    pub pack: Option<PackRef>,
    /// Names this namespace inside backend trees.
    pub random_name: Vec<u8>,
}

pub open spec fn refs_view(s: Seq<(Vec<u8>, Ref)>) -> Seq<(Seq<u8>, WireRef)> {
    s.map_values(|e: (Vec<u8>, Ref)| (e.0@, e.1@))
}

pub open spec fn opt_pack_view(p: Option<PackRef>) -> Option<WirePack> {
    match p {
        Some(q) => Some(q@),
        None => None,
    }
}

impl View for Namespace {
    type V = WireNamespace;

    open spec fn view(&self) -> WireNamespace {
        WireNamespace { refs: refs_view(self.refs@), pack: opt_pack_view(self.pack), name: self.random_name@ }
    }
}

/// The value under `name` in a ref table.
pub open spec fn ref_value(refs: Seq<(Vec<u8>, Ref)>, name: Seq<u8>) -> Option<WireRef> {
    match lookup(refs, name) {
        Some(r) => Some(r@),
        None => None,
    }
}

impl Namespace {
    pub open spec fn wf(&self) -> bool {
        &&& ascending(self.refs@)
        &&& wf_namespace(self@)
        &&& self.pack matches Some(p) ==> p.blob_ref.resource_key.wf()
    }

    /// A namespace with no refs and no pack, under a fresh random name.
    pub fn new() -> (r: Namespace)
        ensures
            r.wf(),
            r.refs@.len() == 0,
            r.pack is None,
    {
        Namespace::with_name(random_name())
    }

    /// A namespace with no refs and no pack, under the given name.
    pub fn with_name(random_name: Vec<u8>) -> (r: Namespace)
        requires
            random_name@.len() == 20,
        ensures
            r.wf(),
            r.refs@.len() == 0,
            r.pack is None,
            r.random_name@ == random_name@,
    {
        Namespace { refs: Vec::new(), pack: None, random_name }
    }

    /// The value of the ref `name`.
    pub fn get_ref(&self, name: &[u8]) -> (r: Option<&Ref>)
        requires
            ascending(self.refs@),
        ensures
            r matches Some(x) ==> ref_value(self.refs@, name@) == Some(x@),
            r is None ==> ref_value(self.refs@, name@) is None,
    {
        crate::table::table_get(&self.refs, name)
    }

    pub fn to_serialized(&self) -> (r: SerializedNamespace)
        ensures
            r@ == self@,
    {
        let mut refs: Vec<(Vec<u8>, SerializedRef)> = Vec::new();
        let mut i: usize = 0;
        while i < self.refs.len()
            invariant
                0 <= i <= self.refs@.len(),
                ref_entries_view(refs@) == refs_view(self.refs@).take(i as int),
            decreases self.refs@.len() - i,
        {
            let e = (copy_bytes(self.refs[i].0.as_slice()), self.refs[i].1.to_serialized());
            let ghost prev = refs@;
            refs.push(e);
            assert(ref_entries_view(refs@) =~= ref_entries_view(prev).push(refs_view(self.refs@)[i as int]));
            assert(refs_view(self.refs@).take(i as int + 1) =~= refs_view(self.refs@).take(i as int).push(
                refs_view(self.refs@)[i as int],
            ));
            i = i + 1;
        }
        assert(refs_view(self.refs@).take(self.refs@.len() as int) =~= refs_view(self.refs@));
        let pack = match &self.pack {
            Some(p) => Some(p.to_serialized()),
            None => None,
        };
        SerializedNamespace { refs, pack, random_name: copy_bytes(self.random_name.as_slice()) }
    }

    /// The in-memory form of a decoded namespace.
    pub fn from_serialized(s: &SerializedNamespace) -> (r: Result<Namespace, ConvertError>)
        requires
            wf_namespace(s@),
        ensures
            r matches Ok(x) ==> x@ == s@ && x.wf(),
            r is Err <==> (s.pack matches Some(p) && p.blob_ref.resource_key matches SerializedResourceKey::Git(b)
                && b@.len() % 20 != 0),
    {
        let mut refs: Vec<(Vec<u8>, Ref)> = Vec::new();
        let mut i: usize = 0;
        while i < s.refs.len()
            invariant
                0 <= i <= s.refs@.len(),
                refs_view(refs@) == ref_entries_view(s.refs@).take(i as int),
            decreases s.refs@.len() - i,
        {
            let e = (copy_bytes(s.refs[i].0.as_slice()), Ref::from_serialized(&s.refs[i].1));
            let ghost prev = refs@;
            refs.push(e);
            assert(refs_view(refs@) =~= refs_view(prev).push(ref_entries_view(s.refs@)[i as int]));
            assert(ref_entries_view(s.refs@).take(i as int + 1) =~= ref_entries_view(s.refs@).take(
                i as int,
            ).push(ref_entries_view(s.refs@)[i as int]));
            i = i + 1;
        }
        assert(ref_entries_view(s.refs@).take(s.refs@.len() as int) =~= ref_entries_view(s.refs@));
        let pack = match &s.pack {
            Some(p) => Some(PackRef::from_serialized(p)?),
            None => None,
        };
        let x = Namespace { refs, pack, random_name: copy_bytes(s.random_name.as_slice()) };
        proof {
            assert forall|j: int| 0 <= j < x.refs@.len() - 1 implies #[trigger] lex_lt(
                x.refs@[j].0@,
                x.refs@[j + 1].0@,
            ) by {
                assert(refs_view(x.refs@)[j].0 == x.refs@[j].0@);
                assert(refs_view(x.refs@)[j + 1].0 == x.refs@[j + 1].0@);
            }
        }
        Ok(x)
    }
}

/// A flat id array whose length is not a multiple of 20.
pub open spec fn bad_key(k: SerializedResourceKey) -> bool {
    k matches SerializedResourceKey::Git(b) && b@.len() % 20 != 0
}

pub open spec fn state_has_bad_key(s: &SerializedState) -> bool {
    (exists|i: int| 0 <= i < s.namespaces@.len() && bad_key(#[trigger] s.namespaces@[i].1.resource_key))
        || (exists|i: int| 0 <= i < s.parents@.len() && bad_key(#[trigger] s.parents@[i].resource_key))
}

/// A flat id array of the wrong length somewhere in a state's value.
pub open spec fn state_has_bad_key_view(v: WireState) -> bool {
    (exists|i: int| 0 <= i < v.namespaces.len() && bad_key_view(#[trigger] v.namespaces[i].1.key))
        || (exists|i: int| 0 <= i < v.parents.len() && bad_key_view(#[trigger] v.parents[i].key))
}

pub open spec fn bad_key_view(k: WireKey) -> bool {
    k matches WireKey::Git(b) && b.len() % 20 != 0
}

/// A flat id array of the wrong length in a namespace's pack.
pub open spec fn namespace_has_bad_key_view(v: WireNamespace) -> bool {
    v.pack matches Some(p) && bad_key_view(p.blob.key)
}

pub proof fn lemma_ids_flat_len(v: Seq<Seq<u8>>)
    requires
        all_ids(v),
    ensures
        flatten(v).len() == 20 * v.len(),
    decreases v.len(),
{
    if v.len() > 0 {
        assert(all_ids(v.drop_last())) by {
            assert forall|i: int| 0 <= i < v.drop_last().len() implies (#[trigger] v.drop_last()[i]).len() == 20 by {
                assert(v.drop_last()[i] == v[i]);
            }
        }
        lemma_ids_flat_len(v.drop_last());
        assert(v.last().len() == 20);
    }
}

pub proof fn lemma_key_not_bad(k: ResourceKey)
    requires
        k.wf(),
    ensures
        !bad_key_view(k@),
{
    if let ResourceKey::Git(ids) = k {
        lemma_ids_flat_len(ids_view(ids@));
        vstd::arithmetic::div_mod::lemma_mod_multiples_basic(ids@.len() as int, 20);
        assert(ids_view(ids@).len() == ids@.len());
    }
}

/// The blob keys of a well-formed state all convert back from their flat
/// serialized form.
pub proof fn lemma_wf_state_keys(st: &State)
    requires
        st.wf(),
    ensures
        !state_has_bad_key_view(st@),
{
    assert forall|i: int| 0 <= i < st@.namespaces.len() implies !bad_key_view(#[trigger] st@.namespaces[i].1.key) by {
        assert(st@.namespaces[i].1.key == st.namespaces@[i].1.0.resource_key@);
        lemma_key_not_bad(st.namespaces@[i].1.0.resource_key);
    }
    assert forall|i: int| 0 <= i < st@.parents.len() implies !bad_key_view(#[trigger] st@.parents[i].key) by {
        assert(st@.parents[i].key == st.parents@[i].0.resource_key@);
        lemma_key_not_bad(st.parents@[i].0.resource_key);
    }
}

pub proof fn lemma_bad_key_view(s: &SerializedState)
    ensures
        state_has_bad_key(s) ==> state_has_bad_key_view(s@),
{
    if state_has_bad_key(s) {
        if exists|i: int| 0 <= i < s.namespaces@.len() && bad_key(#[trigger] s.namespaces@[i].1.resource_key) {
            let i = choose|i: int| 0 <= i < s.namespaces@.len() && bad_key(#[trigger] s.namespaces@[i].1.resource_key);
            assert(s@.namespaces[i].1.key == s.namespaces@[i].1.resource_key@);
            assert(bad_key_view(s@.namespaces[i].1.key));
        } else {
            let i = choose|i: int| 0 <= i < s.parents@.len() && bad_key(#[trigger] s.parents@[i].resource_key);
            assert(s@.parents[i].key == s.parents@[i].resource_key@);
            assert(bad_key_view(s@.parents[i].key));
        }
    }
}

/// The root of the state graph for one backend commit.
#[derive(Clone, Debug, PartialEq, Eq)]
pub struct State {
    /// Namespace name to the blob holding it, names strictly ascending.
    pub namespaces: Vec<(Vec<u8>, NamespaceRef)>,
    /// The logical parents, ascending by their serialized bytes.
    pub parents: Vec<StateRef>,
}

pub open spec fn namespaces_view(s: Seq<(Vec<u8>, NamespaceRef)>) -> Seq<(Seq<u8>, WireBlob)> {
    s.map_values(|e: (Vec<u8>, NamespaceRef)| (e.0@, e.1.0@))
}

pub open spec fn parents_view(s: Seq<StateRef>) -> Seq<WireBlob> {
    s.map_values(|e: StateRef| e.0@)
}

impl View for State {
    type V = WireState;

    open spec fn view(&self) -> WireState {
        WireState { namespaces: namespaces_view(self.namespaces@), parents: parents_view(self.parents@) }
    }
}

impl State {
    pub open spec fn wf(&self) -> bool {
        &&& ascending(self.namespaces@)
        &&& wf_state(self@)
        &&& forall|i: int| 0 <= i < self.namespaces@.len() ==> (#[trigger] self.namespaces@[i]).1.0.resource_key.wf()
        &&& forall|i: int| 0 <= i < self.parents@.len() ==> (#[trigger] self.parents@[i]).0.resource_key.wf()
    }

    /// The state with no namespaces and no parents.
    pub fn empty() -> (r: State)
        ensures
            r.wf(),
            r@.namespaces.len() == 0,
            r@.parents.len() == 0,
    {
        State { namespaces: Vec::new(), parents: Vec::new() }
    }

    /// The blob that holds namespace `name` in this state.
    pub fn namespace(&self, name: &[u8]) -> (r: Option<&NamespaceRef>)
        requires
            ascending(self.namespaces@),
        ensures
            r matches Some(x) ==> lookup(self.namespaces@, name@) == Some(*x),
            r is None ==> lookup(self.namespaces@, name@) is None,
    {
        crate::table::table_get(&self.namespaces, name)
    }

    pub fn to_serialized(&self) -> (r: SerializedState)
        ensures
            r@ == self@,
            self.wf() ==> !state_has_bad_key_view(r@),
    {
        proof {
            if self.wf() {
                lemma_wf_state_keys(self);
            }
        }
        let mut namespaces: Vec<(Vec<u8>, SerializedBlobRef)> = Vec::new();
        let mut i: usize = 0;
        while i < self.namespaces.len()
            invariant
                0 <= i <= self.namespaces@.len(),
                ns_entries_view(namespaces@) == namespaces_view(self.namespaces@).take(i as int),
            decreases self.namespaces@.len() - i,
        {
            let e = (copy_bytes(self.namespaces[i].0.as_slice()), self.namespaces[i].1.0.to_serialized());
            let ghost prev = namespaces@;
            namespaces.push(e);
            assert(ns_entries_view(namespaces@) =~= ns_entries_view(prev).push(
                namespaces_view(self.namespaces@)[i as int],
            ));
            assert(namespaces_view(self.namespaces@).take(i as int + 1) =~= namespaces_view(
                self.namespaces@,
            ).take(i as int).push(namespaces_view(self.namespaces@)[i as int]));
            i = i + 1;
        }
        assert(namespaces_view(self.namespaces@).take(self.namespaces@.len() as int) =~= namespaces_view(
            self.namespaces@,
        ));
        let mut parents: Vec<SerializedBlobRef> = Vec::new();
        let mut j: usize = 0;
        while j < self.parents.len()
            invariant
                0 <= j <= self.parents@.len(),
                blobs_view(parents@) == parents_view(self.parents@).take(j as int),
            decreases self.parents@.len() - j,
        {
            let e = self.parents[j].0.to_serialized();
            let ghost prev = parents@;
            parents.push(e);
            assert(blobs_view(parents@) =~= blobs_view(prev).push(parents_view(self.parents@)[j as int]));
            assert(parents_view(self.parents@).take(j as int + 1) =~= parents_view(self.parents@).take(
                j as int,
            ).push(parents_view(self.parents@)[j as int]));
            j = j + 1;
        }
        assert(parents_view(self.parents@).take(self.parents@.len() as int) =~= parents_view(
            self.parents@,
        ));
        SerializedState { namespaces, parents }
    }

    /// The in-memory form of a decoded state.
    pub fn from_serialized(s: &SerializedState) -> (r: Result<State, ConvertError>)
        requires
            wf_state(s@),
        ensures
            r matches Ok(x) ==> x@ == s@ && x.wf(),
            r is Err <==> state_has_bad_key(s),
            !state_has_bad_key_view(s@) ==> r is Ok,
    {
        let mut namespaces: Vec<(Vec<u8>, NamespaceRef)> = Vec::new();
        let mut i: usize = 0;
        while i < s.namespaces.len()
            invariant
                0 <= i <= s.namespaces@.len(),
                namespaces_view(namespaces@) == ns_entries_view(s.namespaces@).take(i as int),
                namespaces@.len() == i,
                forall|k: int| 0 <= k < i ==> (#[trigger] namespaces@[k]).1.0.resource_key.wf(),
                forall|k: int| 0 <= k < i ==> !bad_key(#[trigger] s.namespaces@[k].1.resource_key),
            decreases s.namespaces@.len() - i,
        {
            let blob = match BlobRef::from_serialized(&s.namespaces[i].1) {
                Ok(b) => b,
                Err(e) => {
                    proof {
                        assert(bad_key(s.namespaces@[i as int].1.resource_key));
                        lemma_bad_key_view(s);
                    }
                    return Err(e);
                },
            };
            let e = (copy_bytes(s.namespaces[i].0.as_slice()), NamespaceRef(blob));
            let ghost prev = namespaces@;
            namespaces.push(e);
            assert(namespaces_view(namespaces@) =~= namespaces_view(prev).push(
                ns_entries_view(s.namespaces@)[i as int],
            ));
            assert(ns_entries_view(s.namespaces@).take(i as int + 1) =~= ns_entries_view(
                s.namespaces@,
            ).take(i as int).push(ns_entries_view(s.namespaces@)[i as int]));
            i = i + 1;
        }
        assert(ns_entries_view(s.namespaces@).take(s.namespaces@.len() as int) =~= ns_entries_view(
            s.namespaces@,
        ));
        let mut parents: Vec<StateRef> = Vec::new();
        let mut j: usize = 0;
        while j < s.parents.len()
            invariant
                0 <= j <= s.parents@.len(),
                parents_view(parents@) == blobs_view(s.parents@).take(j as int),
                parents@.len() == j,
                forall|k: int| 0 <= k < j ==> (#[trigger] parents@[k]).0.resource_key.wf(),
                namespaces@.len() == s.namespaces@.len(),
                forall|k: int| 0 <= k < namespaces@.len() ==> (#[trigger] namespaces@[k]).1.0.resource_key.wf(),
                forall|k: int| 0 <= k < s.namespaces@.len() ==> !bad_key(#[trigger] s.namespaces@[k].1.resource_key),
                forall|k: int| 0 <= k < j ==> !bad_key(#[trigger] s.parents@[k].resource_key),
            decreases s.parents@.len() - j,
        {
            let blob = match BlobRef::from_serialized(&s.parents[j]) {
                Ok(b) => b,
                Err(e) => {
                    proof {
                        assert(bad_key(s.parents@[j as int].resource_key));
                        lemma_bad_key_view(s);
                    }
                    return Err(e);
                },
            };
            let ghost prev = parents@;
            parents.push(StateRef(blob));
            assert(parents_view(parents@) =~= parents_view(prev).push(blobs_view(s.parents@)[j as int]));
            assert(blobs_view(s.parents@).take(j as int + 1) =~= blobs_view(s.parents@).take(j as int).push(
                blobs_view(s.parents@)[j as int],
            ));
            j = j + 1;
        }
        assert(blobs_view(s.parents@).take(s.parents@.len() as int) =~= blobs_view(s.parents@));
        let x = State { namespaces, parents };
        proof {
            assert forall|k: int| 0 <= k < x.namespaces@.len() - 1 implies #[trigger] lex_lt(
                x.namespaces@[k].0@,
                x.namespaces@[k + 1].0@,
            ) by {
                assert(namespaces_view(x.namespaces@)[k].0 == x.namespaces@[k].0@);
                assert(namespaces_view(x.namespaces@)[k + 1].0 == x.namespaces@[k + 1].0@);
            }
        }
        Ok(x)
    }
}

} // verus!
