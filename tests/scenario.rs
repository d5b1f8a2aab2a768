use std::collections::HashMap;

use recursive_remote::codec::{concat_chunks, decode, encode};
use recursive_remote::history::{missing_states, materialize_ordered_pack_list, ratchet, Reconcile, StateGraph, StateNode};
use recursive_remote::model::{BlobRef, Namespace, NamespaceRef, PackRef, Ref, ResourceKey, State, StateRef};
use recursive_remote::push::{update_namespace_with_push, update_state_with_push};
use recursive_remote::store::{decode_namespace, decode_state, encode_namespace, encode_state};
use sha2::Digest;

/// Blobs by id, as a backend would keep them.
#[derive(Default)]
struct Backend {
    blobs: HashMap<Vec<u8>, Vec<u8>>,
    tip: Option<StateRef>,
}

impl Backend {
    fn store(&mut self, chunks: &[Vec<u8>], sha256: Vec<u8>) -> BlobRef {
        let mut ids = Vec::new();
        for c in chunks {
            let id = sha2::Sha256::digest(c)[..20].to_vec();
            self.blobs.insert(id.clone(), c.clone());
            ids.push(id);
        }
        BlobRef { resource_key: ResourceKey::Git(ids), sha256 }
    }

    fn load(&self, blob: &BlobRef) -> Vec<Vec<u8>> {
        match &blob.resource_key {
            ResourceKey::Git(ids) => ids.iter().map(|id| self.blobs[id].clone()).collect(),
            ResourceKey::Annex(_) => panic!("external key"),
        }
    }

    fn state(&self, r: &StateRef) -> State {
        decode_state(&self.load(&r.0), Some(&r.0.sha256)).ok().unwrap().1
    }

    fn namespace(&self, st: &State) -> Option<Namespace> {
        st.namespace(b"").map(|n| decode_namespace(&self.load(&n.0), Some(&n.0.sha256)).ok().unwrap().1)
    }

    fn graph(&self, tip: &StateRef) -> StateGraph {
        let mut g = StateGraph::new();
        let mut known: HashMap<Vec<u8>, StateRef> = HashMap::new();
        known.insert(tip.0.sha256.clone(), tip.clone());
        loop {
            let missing = if g.nodes.is_empty() { vec![tip.0.sha256.clone()] } else { missing_states(&g, &tip.0.sha256, None) };
            if missing.is_empty() {
                return g;
            }
            for h in missing {
                let r = known[&h].clone();
                let st = self.state(&r);
                for p in st.parents.iter() {
                    known.insert(p.0.sha256.clone(), p.clone());
                }
                let pack = self.namespace(&st).and_then(|n| n.pack);
                g.add(StateNode { sha256: h, parents: Some(st.parents.iter().map(|p| p.0.sha256.clone()).collect()), pack });
            }
        }
    }

    /// A push of `main` to `commit` with the given pack bytes; `descends`
    /// answers the commit graph. Returns whether the ref moved.
    fn push(&mut self, commit: u8, descends: bool, pack: &[u8]) -> bool {
        let state = match &self.tip {
            Some(t) => self.state(t),
            None => State::empty(),
        };
        let ns = self.namespace(&state).unwrap_or_else(|| Namespace::with_name(vec![9; 20]));
        let e = encode(pack, 10);
        let pack_ref = PackRef { blob_ref: self.store(&e.chunks, e.sha256), random_name: vec![commit; 20] };
        let (ns, status) = update_namespace_with_push(
            &ns,
            &vec![(b"refs/heads/main".to_vec(), Ref::Direct(vec![commit; 20]))],
            &vec![descends],
            &vec![],
            pack_ref,
            pack.len(),
        );
        let e = encode_namespace(&ns, 16);
        let ns_blob = self.store(&e.chunks, e.sha256);
        let next = update_state_with_push(state, self.tip.clone(), b"", NamespaceRef(ns_blob));
        let e = encode_state(&next, 16);
        self.tip = Some(StateRef(self.store(&e.chunks, e.sha256)));
        status[0].1
    }
}

/// What a clone knows: the tip it tracks.
struct Clone {
    tracking: Option<Vec<u8>>,
}

impl Clone {
    /// Fetches: ratchet, then the packs it lacks, oldest first.
    fn fetch(&mut self, up: &Backend) -> Vec<Vec<u8>> {
        let tip = up.tip.as_ref().unwrap();
        let g = up.graph(tip);
        let d = ratchet(&g, self.tracking.as_deref(), Some(&tip.0.sha256));
        assert!(matches!(d, Ok(Reconcile::Adopt) | Ok(Reconcile::Advance)));
        let packs = materialize_ordered_pack_list(&g, &tip.0.sha256, self.tracking.as_deref()).ok().unwrap();
        self.tracking = Some(tip.0.sha256.clone());
        packs
            .iter()
            .rev()
            .map(|p| {
                let chunks = up.load(&p.blob_ref);
                let (bytes, _) = decode(&chunks, Some(&p.blob_ref.sha256)).ok().unwrap();
                assert_eq!(bytes, concat_chunks(&chunks));
                bytes
            })
            .collect()
    }
}

#[test]
fn initial_sync_cleartext() {
    let mut up = Backend::default();
    let mut b = Clone { tracking: None };
    assert!(up.push(1, false, b"hello hello hello hello hello hello 2"));
    assert_eq!(b.fetch(&up), vec![b"hello hello hello hello hello hello 2".to_vec()]);
    let mut a = Clone { tracking: b.tracking.clone() };
    assert!(up.push(2, true, b"file4"));
    assert_eq!(a.fetch(&up), vec![b"file4".to_vec()]);
    let ns = up.namespace(&up.state(up.tip.as_ref().unwrap())).unwrap();
    assert_eq!(ns.refs, vec![(b"refs/heads/main".to_vec(), Ref::Direct(vec![2; 20]))]);
}

#[test]
fn merge_round_trip() {
    let mut up = Backend::default();
    let mut a = Clone { tracking: None };
    let mut b = Clone { tracking: None };
    up.push(1, false, b"base");
    a.fetch(&up);
    b.fetch(&up);
    assert!(up.push(2, true, b"file8"));
    assert_eq!(b.fetch(&up), vec![b"file8".to_vec()]);
    assert!(up.push(3, true, b"file5 file6 file7 merge"));
    assert_eq!(a.fetch(&up), vec![b"file8".to_vec(), b"file5 file6 file7 merge".to_vec()]);
    let mut fresh = Clone { tracking: None };
    assert_eq!(fresh.fetch(&up).len(), 3);
}

#[test]
fn stale_push_is_rejected_then_forced() {
    let mut up = Backend::default();
    up.push(1, false, b"base");
    assert!(!up.push(2, false, b"diverged"));
    let ns = up.namespace(&up.state(up.tip.as_ref().unwrap())).unwrap();
    assert_eq!(ns.refs[0].1, Ref::Direct(vec![1; 20]));
}

