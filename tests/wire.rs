use std::collections::BTreeMap;

use recursive_remote::model::{
    BlobRef, ConvertError, Namespace, NamespaceRef, PackRef, Ref, ResourceKey, State, StateRef,
};
use recursive_remote::store::{decode_namespace_content, decode_state_content, DecodeError};
use recursive_remote::wire::{
    deserialize_namespace, deserialize_state, serialize_namespace, serialize_state, SerializedResourceKey,
};
use sha2::Digest;

fn blob(seed: u8, n_ids: usize) -> BlobRef {
    BlobRef {
        resource_key: ResourceKey::Git((0..n_ids).map(|i| vec![seed.wrapping_add(i as u8); 20]).collect()),
        sha256: vec![seed; 32],
    }
}

fn sample_namespace() -> Namespace {
    Namespace {
        refs: vec![
            (b"HEAD".to_vec(), Ref::Symbolic(b"refs/heads/main".to_vec(), Some(vec![3; 20]))),
            (b"refs/heads/main".to_vec(), Ref::Direct(vec![3; 20])),
            (b"refs/tags/v1".to_vec(), Ref::Symbolic(b"refs/heads/x".to_vec(), None)),
        ],
        pack: Some(PackRef { blob_ref: blob(9, 2), random_name: vec![5; 20] }),
        random_name: vec![7; 20],
    }
}

fn sample_state() -> State {
    State {
        namespaces: vec![(b"".to_vec(), NamespaceRef(blob(1, 1))), (b"work".to_vec(), NamespaceRef(blob(2, 3)))],
        parents: vec![StateRef(blob(4, 1))],
    }
}

#[test]
fn empty_state_matches_bincode_layout() {
    let bytes = serialize_state(&State { namespaces: vec![], parents: vec![] }.to_serialized());
    let reference = bincode::serialize(&(BTreeMap::<String, Vec<u8>>::new(), Vec::<u8>::new())).unwrap();
    assert_eq!(bytes, reference);
    assert_eq!(bytes, vec![0u8; 16]);
}

#[test]
fn ref_table_layout_matches_bincode() {
    let ns = Namespace { refs: vec![(b"a".to_vec(), Ref::Direct(vec![1; 20]))], pack: None, random_name: vec![2; 20] };
    let bytes = serialize_namespace(&ns.to_serialized());
    let mut map = BTreeMap::new();
    map.insert("a".to_string(), (0u32, [1u8; 20]));
    let reference = bincode::serialize(&(map, 0u8, [2u8; 20])).unwrap();
    assert_eq!(bytes, reference);
}

#[test]
fn canonical_state_serialization() {
    let st = sample_state();
    let first = serialize_state(&st.to_serialized());
    let back = State::from_serialized(&deserialize_state(&first).ok().unwrap()).ok().unwrap();
    let second = serialize_state(&back.to_serialized());
    assert_eq!(first, second);
    assert_eq!(back.namespaces.len(), 2);
    assert_eq!(back.parents.len(), 1);
}

#[test]
fn canonical_namespace_serialization() {
    let ns = sample_namespace();
    let first = serialize_namespace(&ns.to_serialized());
    let back = Namespace::from_serialized(&deserialize_namespace(&first).ok().unwrap()).ok().unwrap();
    let second = serialize_namespace(&back.to_serialized());
    assert_eq!(first, second);
    assert_eq!(back.refs.len(), 3);
    assert_eq!(back.random_name, vec![7; 20]);
}

#[test]
fn trailing_bytes_are_rejected() {
    let mut bytes = serialize_state(&sample_state().to_serialized());
    bytes.push(0);
    assert!(deserialize_state(&bytes).is_err());
}

#[test]
fn truncated_bytes_are_rejected() {
    let bytes = serialize_namespace(&sample_namespace().to_serialized());
    for cut in [0usize, 5, 8, 20, bytes.len() - 1] {
        assert!(deserialize_namespace(&bytes[..cut]).is_err());
    }
}

#[test]
fn unsorted_refs_are_rejected() {
    let ns = Namespace {
        refs: vec![(b"b".to_vec(), Ref::Direct(vec![1; 20])), (b"a".to_vec(), Ref::Direct(vec![1; 20]))],
        pack: None,
        random_name: vec![2; 20],
    };
    let bytes = serialize_namespace(&ns.to_serialized());
    assert!(deserialize_namespace(&bytes).is_err());
}

#[test]
fn id_list_not_multiple_of_twenty_is_rejected() {
    let bad = SerializedResourceKey::Git(vec![0; 21]);
    assert_eq!(ResourceKey::from_serialized(&bad).err(), Some(ConvertError::OidLength));
    let good = SerializedResourceKey::Git(vec![0; 40]);
    match ResourceKey::from_serialized(&good).ok().unwrap() {
        ResourceKey::Git(ids) => assert_eq!(ids.len(), 2),
        ResourceKey::Annex(_) => panic!("wrong variant"),
    }
}

#[test]
fn state_content_checks_hash() {
    let bytes = serialize_state(&sample_state().to_serialized());
    let h = sha2::Sha256::digest(&bytes).to_vec();
    let (got, st) = decode_state_content(bytes.clone(), Some(&h)).ok().unwrap();
    assert_eq!(got, h);
    assert_eq!(st.parents.len(), 1);
    let mut wrong = h.clone();
    wrong[31] ^= 0xff;
    assert!(matches!(decode_state_content(bytes, Some(&wrong)), Err(DecodeError::Codec(_))));
}

#[test]
fn namespace_content_rejects_garbage() {
    assert!(matches!(decode_namespace_content(vec![1, 2, 3], None), Err(DecodeError::Malformed(_))));
}

#[test]
fn state_round_trips_through_serialized_form() {
    let st = sample_state();
    let back = State::from_serialized(&st.to_serialized()).ok().unwrap();
    assert_eq!(back, st);
}
