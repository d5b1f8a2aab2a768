use recursive_remote::model::{BlobRef, Namespace, NamespaceRef, PackRef, Ref, ResourceKey, State, StateRef};
use recursive_remote::push::{
    ancestry_question, can_fast_forward, pack_exclusions, pack_includes, parse_push_specs, push_outcome,
    update_namespace_with_push, update_state_with_push, PushOutcome, PushSpecError, MAX_PUSH_ATTEMPTS,
};

fn specs(lines: &[&str]) -> Vec<String> {
    lines.iter().map(|s| s.to_string()).collect()
}

fn pack() -> PackRef {
    PackRef {
        blob_ref: BlobRef { resource_key: ResourceKey::Git(vec![vec![8; 20]]), sha256: vec![8; 32] },
        random_name: vec![6; 20],
    }
}

fn ns_with(name: &[u8], target: Ref) -> Namespace {
    Namespace { refs: vec![(name.to_vec(), target)], pack: None, random_name: vec![1; 20] }
}

#[test]
fn push_specs_split_plain_forced_and_deletes() {
    let mut p = Vec::new();
    let mut f = Vec::new();
    let r = parse_push_specs(
        &specs(&["push refs/heads/main:refs/heads/main", "push +refs/heads/x:refs/heads/y", "push :refs/heads/gone"]),
        &mut p,
        &mut f,
    );
    assert_eq!(r, Ok(()));
    assert_eq!(p, vec![(b"refs/heads/main".to_vec(), b"refs/heads/main".to_vec())]);
    assert_eq!(
        f,
        vec![
            (b"refs/heads/x".to_vec(), b"refs/heads/y".to_vec()),
            (b"".to_vec(), b"refs/heads/gone".to_vec())
        ]
    );
}

#[test]
fn protocol_invalid_push_spec_returns_error() {
    let mut p = Vec::new();
    let mut f = Vec::new();
    let r = parse_push_specs(&specs(&["push refs/heads/main"]), &mut p, &mut f);
    assert_eq!(r, Err(PushSpecError::MissingDest));
    let r = parse_push_specs(&specs(&["pull a:b"]), &mut p, &mut f);
    assert_eq!(r, Err(PushSpecError::NotPush));
}

#[test]
fn fast_forward_rules() {
    let a = Ref::Direct(vec![1; 20]);
    let b = Ref::Direct(vec![2; 20]);
    let s = Ref::Symbolic(b"refs/heads/main".to_vec(), None);
    assert!(can_fast_forward(b"refs/heads/main", &a, &a, false));
    assert!(can_fast_forward(b"refs/heads/main", &a, &b, true));
    assert!(!can_fast_forward(b"refs/heads/main", &a, &b, false));
    assert!(!can_fast_forward(b"refs/tags/v1", &a, &b, true));
    assert!(!can_fast_forward(b"HEAD", &s, &b, true));
    assert!(ancestry_question(b"refs/heads/main", &a, &b).is_some());
    assert!(ancestry_question(b"refs/tags/v1", &a, &b).is_none());
    assert!(ancestry_question(b"refs/heads/main", &a, &a).is_none());
}

#[test]
fn non_fast_forward_push_is_rejected_without_force_and_allowed_with_force() {
    let old = Ref::Direct(vec![1; 20]);
    let new = Ref::Direct(vec![2; 20]);
    let ns = ns_with(b"refs/heads/main", old);
    let (after, status) =
        update_namespace_with_push(&ns, &vec![(b"refs/heads/main".to_vec(), new.clone())], &vec![false], &vec![], pack(), 0);
    assert_eq!(status, vec![(b"refs/heads/main".to_vec(), false)]);
    assert_eq!(after.refs, ns.refs);
    assert!(after.pack.is_none());
    let (after, status) = update_namespace_with_push(
        &ns,
        &vec![],
        &vec![],
        &vec![(b"refs/heads/main".to_vec(), Some(new.clone()))],
        pack(),
        10,
    );
    assert_eq!(status, vec![(b"refs/heads/main".to_vec(), true)]);
    assert_eq!(after.refs, vec![(b"refs/heads/main".to_vec(), new)]);
    assert_eq!(after.pack, Some(pack()));
}

#[test]
fn tag_update_requires_force() {
    let v1 = Ref::Direct(vec![1; 20]);
    let moved = Ref::Direct(vec![2; 20]);
    let ns = ns_with(b"refs/tags/v1", v1.clone());
    let (after, status) =
        update_namespace_with_push(&ns, &vec![(b"refs/tags/v1".to_vec(), moved.clone())], &vec![true], &vec![], pack(), 0);
    assert_eq!(status, vec![(b"refs/tags/v1".to_vec(), false)]);
    assert_eq!(after.refs, vec![(b"refs/tags/v1".to_vec(), v1)]);
    let (after, _) = update_namespace_with_push(
        &ns,
        &vec![],
        &vec![],
        &vec![(b"refs/tags/v1".to_vec(), Some(moved.clone()))],
        pack(),
        0,
    );
    assert_eq!(after.refs, vec![(b"refs/tags/v1".to_vec(), moved)]);
}

#[test]
fn new_refs_and_deletes() {
    let ns = ns_with(b"refs/heads/b", Ref::Direct(vec![1; 20]));
    let (after, status) = update_namespace_with_push(
        &ns,
        &vec![(b"refs/heads/a".to_vec(), Ref::Direct(vec![3; 20])), (b"refs/heads/c".to_vec(), Ref::Direct(vec![4; 20]))],
        &vec![false, false],
        &vec![(b"refs/heads/b".to_vec(), None)],
        pack(),
        0,
    );
    assert_eq!(status.iter().filter(|s| s.1).count(), 3);
    let names: Vec<Vec<u8>> = after.refs.iter().map(|e| e.0.clone()).collect();
    assert_eq!(names, vec![b"refs/heads/a".to_vec(), b"refs/heads/c".to_vec()]);
}

#[test]
fn next_state_has_one_parent_and_replaced_namespace() {
    let blob = |n: u8| BlobRef { resource_key: ResourceKey::Git(vec![vec![n; 20]]), sha256: vec![n; 32] };
    let st = State {
        namespaces: vec![(b"a".to_vec(), NamespaceRef(blob(1))), (b"b".to_vec(), NamespaceRef(blob(2)))],
        parents: vec![StateRef(blob(3)), StateRef(blob(4))],
    };
    let next = update_state_with_push(st, Some(StateRef(blob(5))), b"b", NamespaceRef(blob(6)));
    assert_eq!(next.parents.len(), 1);
    assert_eq!(next.parents[0].0.sha256, vec![5; 32]);
    assert_eq!(next.namespaces[0].1 .0.sha256, vec![1; 32]);
    assert_eq!(next.namespaces[1].1 .0.sha256, vec![6; 32]);
    let fresh = update_state_with_push(State::empty(), None, b"", NamespaceRef(blob(7)));
    assert!(fresh.parents.is_empty());
    assert_eq!(fresh.namespaces.len(), 1);
}

#[test]
fn retry_only_when_upstream_moved() {
    assert_eq!(push_outcome(true, None, None), PushOutcome::Reported);
    assert_eq!(push_outcome(false, Some(&[1u8; 32][..]), Some(&[2u8; 32][..])), PushOutcome::Retry);
    assert_eq!(push_outcome(false, Some(&[1u8; 32][..]), Some(&[1u8; 32][..])), PushOutcome::Failed);
    assert_eq!(push_outcome(false, None, Some(&[1u8; 32][..])), PushOutcome::Retry);
    assert_eq!(MAX_PUSH_ATTEMPTS, 25);
}

#[test]
fn pack_revision_lists() {
    let pushes = vec![
        (b"refs/heads/a".to_vec(), Ref::Direct(vec![1; 20])),
        (b"HEAD".to_vec(), Ref::Symbolic(b"refs/heads/a".to_vec(), None)),
    ];
    let force = vec![
        (b"refs/heads/b".to_vec(), Some(Ref::Symbolic(b"x".to_vec(), Some(vec![2; 20])))),
        (b"refs/heads/c".to_vec(), None),
    ];
    assert_eq!(pack_includes(&pushes, &force), vec![vec![1; 20], vec![2; 20]]);
    let ns = ns_with(b"refs/heads/a", Ref::Direct(vec![3; 20]));
    assert_eq!(pack_exclusions(&ns, &vec![Ref::Direct(vec![4; 20])]), vec![vec![3; 20], vec![4; 20]]);
}

#[test]
fn fresh_namespaces_get_random_names() {
    let a = Namespace::new();
    let b = Namespace::new();
    assert_eq!(a.random_name.len(), 20);
    assert_ne!(a.random_name, b.random_name);
    assert!(a.refs.is_empty() && a.pack.is_none());
    let p = PackRef::new(pack().blob_ref);
    assert_eq!(p.random_name.len(), 20);
}
