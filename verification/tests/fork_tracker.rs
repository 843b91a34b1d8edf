use registry_index::dist::{IndexKind, IndexUrl};
use registry_index::fork_indexes::{
    ForkIndexes, MarkerTree, ResolveError, ResolverMarkers,
};
use registry_index::name::PackageName;

fn url(bytes: &[u8]) -> IndexUrl {
    IndexUrl { kind: IndexKind::Remote, url: bytes.to_vec() }
}

fn name(bytes: &[u8]) -> PackageName {
    PackageName::new(&bytes.to_vec()).unwrap()
}

#[test]
fn get_on_fresh_tracker_is_none() {
    let t = ForkIndexes::default();
    assert!(t.get(&name(b"foo")).is_none());
}

#[test]
fn insert_then_get() {
    let mut t = ForkIndexes::default();
    let a = url(b"https://a.example/simple");
    assert!(t.insert(&name(b"foo"), &a, &ResolverMarkers::Universal).is_ok());
    let got = t.get(&name(b"foo")).unwrap();
    assert_eq!(got.url, a.url);
}

#[test]
fn insert_twice_same_index_is_idempotent() {
    let mut t = ForkIndexes::default();
    let a = url(b"https://a.example/simple");
    assert!(t.insert(&name(b"foo"), &a, &ResolverMarkers::Universal).is_ok());
    assert!(t.insert(&name(b"foo"), &a, &ResolverMarkers::Universal).is_ok());
    let got = t.get(&name(b"foo")).unwrap();
    assert_eq!(got.url, a.url);
}

#[test]
fn conflicting_insert_fails_and_sorts_pair() {
    let mut t = ForkIndexes::default();
    let a = url(b"https://a.example/simple");
    let b = url(b"https://b.example/simple");
    assert!(t.insert(&name(b"foo"), &b, &ResolverMarkers::Universal).is_ok());
    let err = t.insert(&name(b"foo"), &a, &ResolverMarkers::Universal).unwrap_err();
    match err {
        ResolveError::ConflictingIndexesUniversal { package_name, index_lo, index_hi } => {
            assert_eq!(package_name.bytes, b"foo".to_vec());
            assert_eq!(index_lo.url, b"https://a.example/simple".to_vec());
            assert_eq!(index_hi.url, b"https://b.example/simple".to_vec());
        }
        ResolveError::ConflictingIndexesFork { .. } => panic!("wrong variant"),
    }
    // The tracker keeps the original assignment.
    assert_eq!(t.get(&name(b"foo")).unwrap().url, b.url);
}

#[test]
fn conflict_pair_is_sorted_regardless_of_call_order() {
    let a = url(b"https://a.example/simple");
    let b = url(b"https://b.example/simple");

    let mut t1 = ForkIndexes::default();
    t1.insert(&name(b"foo"), &a, &ResolverMarkers::Universal).unwrap();
    let e1 = t1.insert(&name(b"foo"), &b, &ResolverMarkers::Universal).unwrap_err();

    let mut t2 = ForkIndexes::default();
    t2.insert(&name(b"foo"), &b, &ResolverMarkers::Universal).unwrap();
    let e2 = t2.insert(&name(b"foo"), &a, &ResolverMarkers::Universal).unwrap_err();

    let pair = |e: ResolveError| match e {
        ResolveError::ConflictingIndexesUniversal { index_lo, index_hi, .. } => {
            (index_lo.url, index_hi.url)
        }
        ResolveError::ConflictingIndexesFork { .. } => panic!("wrong variant"),
    };
    assert_eq!(pair(e1), pair(e2));
}

#[test]
fn fork_context_selects_fork_variant_with_markers() {
    let mut t = ForkIndexes::default();
    let a = url(b"https://a.example/simple");
    let b = url(b"https://b.example/simple");
    let markers = ResolverMarkers::Fork(MarkerTree { repr: b"python_version < '3.9'".to_vec() });
    t.insert(&name(b"foo"), &a, &markers).unwrap();
    let err = t.insert(&name(b"foo"), &b, &markers).unwrap_err();
    match err {
        ResolveError::ConflictingIndexesFork { package_name, index_lo, index_hi, fork_markers } => {
            assert_eq!(package_name.bytes, b"foo".to_vec());
            assert_eq!(index_lo.url, a.url);
            assert_eq!(index_hi.url, b.url);
            assert_eq!(fork_markers.repr, b"python_version < '3.9'".to_vec());
        }
        ResolveError::ConflictingIndexesUniversal { .. } => panic!("wrong variant"),
    }
}

#[test]
fn specific_environment_context_uses_universal_variant() {
    let mut t = ForkIndexes::default();
    let a = url(b"https://a.example/simple");
    let b = url(b"https://b.example/simple");
    t.insert(&name(b"foo"), &a, &ResolverMarkers::SpecificEnvironment).unwrap();
    let err = t.insert(&name(b"foo"), &b, &ResolverMarkers::SpecificEnvironment).unwrap_err();
    assert!(matches!(err, ResolveError::ConflictingIndexesUniversal { .. }));
}

#[test]
fn cloned_trackers_are_isolated() {
    let mut base = ForkIndexes::default();
    let a = url(b"https://a.example/simple");
    let b = url(b"https://b.example/simple");
    base.insert(&name(b"shared"), &a, &ResolverMarkers::Universal).unwrap();

    let mut fork1 = base.clone();
    let mut fork2 = base.clone();
    fork1.insert(&name(b"foo"), &a, &ResolverMarkers::Universal).unwrap();
    fork2.insert(&name(b"foo"), &b, &ResolverMarkers::Universal).unwrap();

    // Each fork sees only its own assignment, plus the shared prefix.
    assert_eq!(fork1.get(&name(b"foo")).unwrap().url, a.url);
    assert_eq!(fork2.get(&name(b"foo")).unwrap().url, b.url);
    assert_eq!(fork1.get(&name(b"shared")).unwrap().url, a.url);
    assert_eq!(fork2.get(&name(b"shared")).unwrap().url, a.url);
    assert!(base.get(&name(b"foo")).is_none());
}

#[test]
fn different_packages_do_not_conflict() {
    let mut t = ForkIndexes::default();
    let a = url(b"https://a.example/simple");
    let b = url(b"https://b.example/simple");
    assert!(t.insert(&name(b"foo"), &a, &ResolverMarkers::Universal).is_ok());
    assert!(t.insert(&name(b"bar"), &b, &ResolverMarkers::Universal).is_ok());
    assert_eq!(t.get(&name(b"foo")).unwrap().url, a.url);
    assert_eq!(t.get(&name(b"bar")).unwrap().url, b.url);
}
