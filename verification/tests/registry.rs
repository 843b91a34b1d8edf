use registry_index::cache::{
    BuildShard, Cache, IndexLocations, PackageArea, PointerFile, PointerKind, Revision,
};
use registry_index::dist::{CachedWheel, IndexKind, IndexUrl, Version, WheelFilename};
use registry_index::hashes::{HashEntry, HashStrategy};
use registry_index::name::PackageName;
use registry_index::registry_wheel_index::RegistryWheelIndex;
use registry_index::tags::Tags;

fn name(bytes: &[u8]) -> PackageName {
    PackageName::from_normalized(bytes.to_vec())
}

fn url(kind: IndexKind, bytes: &[u8]) -> IndexUrl {
    IndexUrl { kind, url: bytes.to_vec() }
}

fn wheel(pkg: &[u8], version: u64, tags: Vec<u64>, hashes: Vec<u64>) -> CachedWheel {
    CachedWheel {
        filename: WheelFilename { name: name(pkg), version: Version(version), tags },
        hashes,
    }
}

fn http_file(w: CachedWheel) -> PointerFile {
    PointerFile { kind: PointerKind::Http, record: Some(w) }
}

fn local_file(w: CachedWheel) -> PointerFile {
    PointerFile { kind: PointerKind::LocalRev, record: Some(w) }
}

/// The active tag set of these tests: tag ids 1..=5, each with its own
/// value as priority.
fn tags() -> Tags {
    Tags { priorities: vec![(1, 1), (2, 2), (3, 3), (4, 4), (5, 5)] }
}

fn no_hashes() -> HashStrategy {
    HashStrategy { entries: Vec::new() }
}

fn one_index(url_bytes: &[u8]) -> IndexLocations {
    IndexLocations {
        indexes: vec![url(IndexKind::Remote, url_bytes)],
        flat_indexes: Vec::new(),
    }
}

#[test]
fn scenario_best_of_version_across_provenance() {
    // Package foo in index A: a direct download at 1.0 compatible at rank 2,
    // and a build output at 1.0 compatible at rank 5. Exactly one entry
    // comes out: the rank-5 candidate.
    let area = PackageArea {
        index_url: b"https://a.example/simple".to_vec(),
        package: name(b"foo"),
        wheel_files: vec![http_file(wheel(b"foo", 10, vec![2], vec![]))],
        build_shards: vec![BuildShard {
            http_revision: Some(Revision {
                digests: vec![],
                outputs: vec![Some(wheel(b"foo", 10, vec![5], vec![]))],
            }),
            local_revision: None,
        }],
    };
    let cache = Cache { areas: vec![area] };
    let mut idx = RegistryWheelIndex::new(
        cache,
        tags(),
        one_index(b"https://a.example/simple"),
        no_hashes(),
    );
    let got = idx.get(&name(b"foo"));
    assert_eq!(got.len(), 1);
    assert_eq!(got[0].0.url, b"https://a.example/simple".to_vec());
    assert_eq!(got[0].1, Version(10));
    assert_eq!(got[0].2.filename.tags, vec![5]);
}

#[test]
fn repeated_get_returns_the_same_sequence() {
    let area = PackageArea {
        index_url: b"https://a.example/simple".to_vec(),
        package: name(b"foo"),
        wheel_files: vec![
            http_file(wheel(b"foo", 20, vec![1], vec![])),
            http_file(wheel(b"foo", 10, vec![2], vec![])),
        ],
        build_shards: vec![],
    };
    let cache = Cache { areas: vec![area] };
    let mut idx = RegistryWheelIndex::new(
        cache,
        tags(),
        one_index(b"https://a.example/simple"),
        no_hashes(),
    );
    let first = idx.get(&name(b"foo"));
    let second = idx.get(&name(b"foo"));
    assert_eq!(first.len(), second.len());
    for (a, b) in first.iter().zip(second.iter()) {
        assert_eq!(a.0.url, b.0.url);
        assert_eq!(a.1, b.1);
        assert_eq!(a.2.filename.tags, b.2.filename.tags);
    }
}

#[test]
fn incompatible_candidate_never_appears() {
    let area = PackageArea {
        index_url: b"https://a.example/simple".to_vec(),
        package: name(b"foo"),
        wheel_files: vec![
            http_file(wheel(b"foo", 10, vec![99], vec![])),
            http_file(wheel(b"foo", 20, vec![3], vec![])),
        ],
        build_shards: vec![],
    };
    let cache = Cache { areas: vec![area] };
    let mut idx = RegistryWheelIndex::new(
        cache,
        tags(),
        one_index(b"https://a.example/simple"),
        no_hashes(),
    );
    let got = idx.get(&name(b"foo"));
    assert_eq!(got.len(), 1);
    assert_eq!(got[0].1, Version(20));
}

#[test]
fn incompatible_candidate_does_not_replace_a_compatible_one() {
    let area = PackageArea {
        index_url: b"https://a.example/simple".to_vec(),
        package: name(b"foo"),
        wheel_files: vec![
            http_file(wheel(b"foo", 10, vec![1], vec![])),
            http_file(wheel(b"foo", 10, vec![99], vec![])),
        ],
        build_shards: vec![],
    };
    let cache = Cache { areas: vec![area] };
    let mut idx = RegistryWheelIndex::new(
        cache,
        tags(),
        one_index(b"https://a.example/simple"),
        no_hashes(),
    );
    let got = idx.get(&name(b"foo"));
    assert_eq!(got.len(), 1);
    assert_eq!(got[0].2.filename.tags, vec![1]);
}

#[test]
fn hash_gating_on_direct_downloads() {
    let policy = HashStrategy {
        entries: vec![HashEntry { name: name(b"foo"), version: Version(10), digests: vec![7] }],
    };
    let area = PackageArea {
        index_url: b"https://a.example/simple".to_vec(),
        package: name(b"foo"),
        wheel_files: vec![
            http_file(wheel(b"foo", 10, vec![5], vec![8])),
            http_file(wheel(b"foo", 20, vec![1], vec![])),
        ],
        build_shards: vec![],
    };
    let cache = Cache { areas: vec![area] };
    let mut idx = RegistryWheelIndex::new(
        cache,
        tags(),
        one_index(b"https://a.example/simple"),
        policy,
    );
    // The 1.0 wheel fails its hash requirement and is skipped, even though
    // it is the most compatible; 2.0 has no requirement and passes.
    let got = idx.get(&name(b"foo"));
    assert_eq!(got.len(), 1);
    assert_eq!(got[0].1, Version(20));
}

#[test]
fn hash_gating_admits_a_matching_fingerprint() {
    let policy = HashStrategy {
        entries: vec![HashEntry { name: name(b"foo"), version: Version(10), digests: vec![7] }],
    };
    let area = PackageArea {
        index_url: b"https://a.example/simple".to_vec(),
        package: name(b"foo"),
        wheel_files: vec![http_file(wheel(b"foo", 10, vec![5], vec![6, 7]))],
        build_shards: vec![],
    };
    let cache = Cache { areas: vec![area] };
    let mut idx = RegistryWheelIndex::new(
        cache,
        tags(),
        one_index(b"https://a.example/simple"),
        policy,
    );
    let got = idx.get(&name(b"foo"));
    assert_eq!(got.len(), 1);
    assert_eq!(got[0].1, Version(10));
}

#[test]
fn built_wheels_are_gated_by_the_revision_fingerprints() {
    let policy = || HashStrategy {
        entries: vec![HashEntry { name: name(b"foo"), version: Version(10), digests: vec![7] }],
    };
    // The built wheel itself carries no fingerprints; the revision it was
    // built from does, and that is what the policy is measured against.
    let area = |rev_digest: u64| PackageArea {
        index_url: b"https://a.example/simple".to_vec(),
        package: name(b"foo"),
        wheel_files: vec![],
        build_shards: vec![BuildShard {
            http_revision: Some(Revision {
                digests: vec![rev_digest],
                outputs: vec![Some(wheel(b"foo", 10, vec![5], vec![]))],
            }),
            local_revision: None,
        }],
    };

    let mut good = RegistryWheelIndex::new(
        Cache { areas: vec![area(7)] },
        tags(),
        one_index(b"https://a.example/simple"),
        policy(),
    );
    assert_eq!(good.get(&name(b"foo")).len(), 1);

    let mut bad = RegistryWheelIndex::new(
        Cache { areas: vec![area(8)] },
        tags(),
        one_index(b"https://a.example/simple"),
        policy(),
    );
    assert_eq!(bad.get(&name(b"foo")).len(), 0);
}

#[test]
fn malformed_records_are_skipped_not_fatal() {
    let area = PackageArea {
        index_url: b"https://a.example/simple".to_vec(),
        package: name(b"foo"),
        wheel_files: vec![
            PointerFile { kind: PointerKind::Http, record: None },
            http_file(wheel(b"foo", 10, vec![3], vec![])),
        ],
        build_shards: vec![
            BuildShard { http_revision: None, local_revision: None },
            BuildShard {
                http_revision: Some(Revision {
                    digests: vec![],
                    outputs: vec![None, Some(wheel(b"foo", 20, vec![3], vec![]))],
                }),
                local_revision: None,
            },
        ],
    };
    let cache = Cache { areas: vec![area] };
    let mut idx = RegistryWheelIndex::new(
        cache,
        tags(),
        one_index(b"https://a.example/simple"),
        no_hashes(),
    );
    let got = idx.get(&name(b"foo"));
    assert_eq!(got.len(), 2);
    assert_eq!(got[0].1, Version(10));
    assert_eq!(got[1].1, Version(20));
}

#[test]
fn record_kind_must_match_index_kind() {
    // A remote-fetch pointer record in the area of a local path-based index
    // is not read, and the other way round.
    let area = PackageArea {
        index_url: b"/srv/find-links".to_vec(),
        package: name(b"foo"),
        wheel_files: vec![
            http_file(wheel(b"foo", 10, vec![3], vec![])),
            local_file(wheel(b"foo", 20, vec![3], vec![])),
        ],
        build_shards: vec![],
    };
    let cache = Cache { areas: vec![area] };
    let locations = IndexLocations {
        indexes: vec![url(IndexKind::Local, b"/srv/find-links")],
        flat_indexes: Vec::new(),
    };
    let mut idx = RegistryWheelIndex::new(cache, tags(), locations, no_hashes());
    let got = idx.get(&name(b"foo"));
    assert_eq!(got.len(), 1);
    assert_eq!(got[0].1, Version(20));
}

#[test]
fn indexes_in_priority_order_versions_ascending() {
    let area_a = PackageArea {
        index_url: b"https://a.example/simple".to_vec(),
        package: name(b"foo"),
        wheel_files: vec![
            http_file(wheel(b"foo", 20, vec![1], vec![])),
            http_file(wheel(b"foo", 10, vec![2], vec![])),
        ],
        build_shards: vec![],
    };
    let area_b = PackageArea {
        index_url: b"https://b.example/simple".to_vec(),
        package: name(b"foo"),
        wheel_files: vec![http_file(wheel(b"foo", 10, vec![3], vec![]))],
        build_shards: vec![],
    };
    let cache = Cache { areas: vec![area_a, area_b] };
    let locations = IndexLocations {
        indexes: vec![
            url(IndexKind::Remote, b"https://a.example/simple"),
            url(IndexKind::Remote, b"https://b.example/simple"),
        ],
        flat_indexes: Vec::new(),
    };
    let mut idx = RegistryWheelIndex::new(cache, tags(), locations, no_hashes());
    let got = idx.get(&name(b"foo"));
    assert_eq!(got.len(), 3);
    assert_eq!(got[0].0.url, b"https://a.example/simple".to_vec());
    assert_eq!(got[0].1, Version(10));
    assert_eq!(got[1].0.url, b"https://a.example/simple".to_vec());
    assert_eq!(got[1].1, Version(20));
    assert_eq!(got[2].0.url, b"https://b.example/simple".to_vec());
    assert_eq!(got[2].1, Version(10));
}

#[test]
fn equal_ranking_keeps_the_earlier_sighting() {
    let area = PackageArea {
        index_url: b"https://a.example/simple".to_vec(),
        package: name(b"foo"),
        wheel_files: vec![
            http_file(wheel(b"foo", 10, vec![3], vec![111])),
            http_file(wheel(b"foo", 10, vec![3], vec![222])),
        ],
        build_shards: vec![],
    };
    let cache = Cache { areas: vec![area] };
    let mut idx = RegistryWheelIndex::new(
        cache,
        tags(),
        one_index(b"https://a.example/simple"),
        no_hashes(),
    );
    let got = idx.get(&name(b"foo"));
    assert_eq!(got.len(), 1);
    assert_eq!(got[0].2.hashes, vec![111]);
}

#[test]
fn strictly_higher_ranking_replaces() {
    let area = PackageArea {
        index_url: b"https://a.example/simple".to_vec(),
        package: name(b"foo"),
        wheel_files: vec![
            http_file(wheel(b"foo", 10, vec![2], vec![111])),
            http_file(wheel(b"foo", 10, vec![4], vec![222])),
        ],
        build_shards: vec![],
    };
    let cache = Cache { areas: vec![area] };
    let mut idx = RegistryWheelIndex::new(
        cache,
        tags(),
        one_index(b"https://a.example/simple"),
        no_hashes(),
    );
    let got = idx.get(&name(b"foo"));
    assert_eq!(got.len(), 1);
    assert_eq!(got[0].2.hashes, vec![222]);
    assert_eq!(got[0].2.filename.tags, vec![4]);
}

#[test]
fn flat_sources_come_after_regular_indexes() {
    let area_flat = PackageArea {
        index_url: b"/srv/find-links".to_vec(),
        package: name(b"foo"),
        wheel_files: vec![local_file(wheel(b"foo", 10, vec![1], vec![]))],
        build_shards: vec![],
    };
    let area_a = PackageArea {
        index_url: b"https://a.example/simple".to_vec(),
        package: name(b"foo"),
        wheel_files: vec![http_file(wheel(b"foo", 20, vec![1], vec![]))],
        build_shards: vec![],
    };
    let cache = Cache { areas: vec![area_flat, area_a] };
    let locations = IndexLocations {
        indexes: vec![url(IndexKind::Remote, b"https://a.example/simple")],
        flat_indexes: vec![url(IndexKind::Local, b"/srv/find-links")],
    };
    let mut idx = RegistryWheelIndex::new(cache, tags(), locations, no_hashes());
    let got = idx.get(&name(b"foo"));
    assert_eq!(got.len(), 2);
    assert_eq!(got[0].0.url, b"https://a.example/simple".to_vec());
    assert_eq!(got[1].0.url, b"/srv/find-links".to_vec());
}

#[test]
fn repeated_configured_index_counts_once() {
    // One source configured twice (once regular, once as a flat source)
    // yields its candidates once, under the first occurrence.
    let area = PackageArea {
        index_url: b"https://a.example/simple".to_vec(),
        package: name(b"foo"),
        wheel_files: vec![http_file(wheel(b"foo", 10, vec![3], vec![]))],
        build_shards: vec![],
    };
    let cache = Cache { areas: vec![area] };
    let locations = IndexLocations {
        indexes: vec![
            url(IndexKind::Remote, b"https://a.example/simple"),
            url(IndexKind::Remote, b"https://a.example/simple"),
        ],
        flat_indexes: vec![url(IndexKind::Remote, b"https://a.example/simple")],
    };
    let mut idx = RegistryWheelIndex::new(cache, tags(), locations, no_hashes());
    let got = idx.get(&name(b"foo"));
    assert_eq!(got.len(), 1);
    assert_eq!(got[0].0.url, b"https://a.example/simple".to_vec());
    assert_eq!(got[0].1, Version(10));
}

#[test]
fn population_happens_once_per_package() {
    let area = PackageArea {
        index_url: b"https://a.example/simple".to_vec(),
        package: name(b"foo"),
        wheel_files: vec![http_file(wheel(b"foo", 10, vec![3], vec![]))],
        build_shards: vec![],
    };
    let cache = Cache { areas: vec![area] };
    let mut idx = RegistryWheelIndex::new(
        cache,
        tags(),
        one_index(b"https://a.example/simple"),
        no_hashes(),
    );
    assert_eq!(idx.index.len(), 0);
    idx.get(&name(b"foo"));
    assert_eq!(idx.index.len(), 1);
    // A repeated lookup reads the cached entry and leaves the memo as it is.
    idx.get(&name(b"foo"));
    assert_eq!(idx.index.len(), 1);
    // A new package extends the memo by exactly its own entry.
    idx.get(&name(b"bar"));
    assert_eq!(idx.index.len(), 2);
    assert_eq!(idx.index[0].0.bytes, b"foo".to_vec());
    assert_eq!(idx.index[1].0.bytes, b"bar".to_vec());
}

#[test]
fn unknown_package_yields_nothing() {
    let cache = Cache { areas: vec![] };
    let mut idx = RegistryWheelIndex::new(
        cache,
        tags(),
        one_index(b"https://a.example/simple"),
        no_hashes(),
    );
    assert_eq!(idx.get(&name(b"absent")).len(), 0);
}
